use lib::trap::trap_desc;

#[test]
fn interrupts_are_named() {
    assert_eq!(trap_desc(0x8000_0000_0000_0007), ("machine timer interrupt", 7));
    assert_eq!(trap_desc(0x8000_0000_0000_000b), ("machine external interrupt", 11));
    assert_eq!(trap_desc(0x8000_0000_0000_0003), ("unknown interrupt", 3));
}

#[test]
fn exceptions_are_named() {
    assert_eq!(trap_desc(2), ("illegal instruction", 2));
    assert_eq!(trap_desc(3), ("breakpoint", 3));
    assert_eq!(trap_desc(5), ("load access fault", 5));
    assert_eq!(trap_desc(7), ("store/AMO access fault", 7));
    assert_eq!(trap_desc(13), ("unknown exception", 13));
}

#[test]
fn code_is_the_low_eleven_bits() {
    assert_eq!(trap_desc(0x1802).1, 2);
    assert_eq!(trap_desc(0x1802).0, "illegal instruction");
}
