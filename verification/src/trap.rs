//! Decoding of the machine trap cause.
use vstd::prelude::*;

verus! {

/// Whether a trap cause names an interrupt: its top bit is set (bit 63 on the
/// 64-bit machines the kernel runs on).
pub open spec fn is_interrupt(cause: usize) -> bool {
    cause > usize::MAX / 2
}

/// The exception or interrupt code of a trap cause: its low eleven bits.
pub open spec fn cause_code(cause: usize) -> usize {
    (cause % 0x800) as usize
}

/// What a trap was, by whether it was an interrupt and by its code.
pub open spec fn trap_name(interrupt: bool, code: usize) -> Seq<char> {
    if interrupt {
        if code == 7 {
            "machine timer interrupt"@
        } else if code == 11 {
            "machine external interrupt"@
        } else {
            "unknown interrupt"@
        }
    } else {
        if code == 2 {
            "illegal instruction"@
        } else if code == 3 {
            "breakpoint"@
        } else if code == 5 {
            "load access fault"@
        } else if code == 7 {
            "store/AMO access fault"@
        } else {
            "unknown exception"@
        }
    }
}

/// Describes a trap cause: what the trap was and its code.
pub fn trap_desc(cause: usize) -> (desc: (&'static str, usize))
    ensures
        desc.1 == cause_code(cause),
        desc.0@ == trap_name(is_interrupt(cause), cause_code(cause)),
{
    let top_bit: u32 = usize::BITS - 1;
    let interrupt = (cause >> top_bit) & 1 != 0;
    let code = cause & 0x7ff;
    proof {
        assert(usize::BITS == 64 ==> top_bit == 63 ==> (((cause >> top_bit) & 1 != 0) == (cause
            >= 0x8000_0000_0000_0000))) by (bit_vector);
        assert(usize::BITS == 32 ==> top_bit == 31 ==> (((cause >> top_bit) & 1 != 0) == (cause
            >= 0x8000_0000))) by (bit_vector);
        vstd::layout::unsigned_int_max_values();
        assert(usize::BITS == 32 || usize::BITS == 64);
        assert(cause & 0x7ff == cause % 0x800) by (bit_vector);
    }
    if interrupt {
        let kind = match code {
            7 => "machine timer interrupt",
            11 => "machine external interrupt",
            _ => "unknown interrupt",
        };
        (kind, code)
    } else {
        let kind = match code {
            2 => "illegal instruction",
            3 => "breakpoint",
            5 => "load access fault",
            7 => "store/AMO access fault",
            _ => "unknown exception",
        };
        (kind, code)
    }
}

/// How a trap cause is named. Its code is its low eleven bits and it is an
/// interrupt exactly when its top bit is set. An exception is an illegal instruction
/// exactly when its code is 2, a breakpoint exactly at 3, a load access fault exactly
/// at 5, a store/AMO access fault exactly at 7, and unknown for every other code. An
/// interrupt is the machine timer exactly at code 7, the machine external interrupt
/// exactly at 11, and unknown for every other code.
pub proof fn lemma_trap_names(cause: usize)
    ensures
        cause_code(cause) == cause % 0x800,
        is_interrupt(cause) <==> cause > usize::MAX / 2,
        ({
            let code = cause % 0x800;
            let name = trap_name(is_interrupt(cause), cause_code(cause));
            &&& cause <= usize::MAX / 2 ==> {
                &&& (name == "illegal instruction"@ <==> code == 2)
                &&& (name == "breakpoint"@ <==> code == 3)
                &&& (name == "load access fault"@ <==> code == 5)
                &&& (name == "store/AMO access fault"@ <==> code == 7)
                &&& (name == "unknown exception"@ <==> (code != 2 && code != 3 && code != 5
                    && code != 7))
            }
            &&& cause > usize::MAX / 2 ==> {
                &&& (name == "machine timer interrupt"@ <==> code == 7)
                &&& (name == "machine external interrupt"@ <==> code == 11)
                &&& (name == "unknown interrupt"@ <==> (code != 7 && code != 11))
            }
        }),
{
    reveal_strlit("illegal instruction");
    reveal_strlit("breakpoint");
    reveal_strlit("load access fault");
    reveal_strlit("store/AMO access fault");
    reveal_strlit("unknown exception");
    reveal_strlit("machine timer interrupt");
    reveal_strlit("machine external interrupt");
    reveal_strlit("unknown interrupt");
    let e = seq![
        "illegal instruction"@,
        "breakpoint"@,
        "load access fault"@,
        "store/AMO access fault"@,
        "unknown exception"@,
    ];
    assert forall|i: int, j: int| 0 <= i < j < 5 implies e[i] != e[j] by {
        if e[i].len() == e[j].len() {
            assert(e[i][0] != e[j][0]);
        }
    }
    let n = seq!["machine timer interrupt"@, "machine external interrupt"@, "unknown interrupt"@];
    assert forall|i: int, j: int| 0 <= i < j < 3 implies n[i] != n[j] by {
        if n[i].len() == n[j].len() {
            assert(n[i][8] != n[j][8]);
        }
    }
}

} // verus!
