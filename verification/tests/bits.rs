use subchain_step::bits::bits_for;

#[test]
fn bits_for_rounds_the_logarithm_up() {
    assert_eq!(bits_for(0), 0);
    assert_eq!(bits_for(1), 0);
    assert_eq!(bits_for(2), 1);
    assert_eq!(bits_for(3), 2);
    assert_eq!(bits_for(4), 2);
    assert_eq!(bits_for(5), 3);
    assert_eq!(bits_for(1023), 10);
    assert_eq!(bits_for(1024), 10);
    assert_eq!(bits_for(1025), 11);
    assert_eq!(bits_for(usize::MAX), usize::BITS as usize);
}
