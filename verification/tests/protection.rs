use region::Protection;

#[test]
fn containment_is_reflexive() {
    let all = [
        Protection::none(),
        Protection::read(),
        Protection::write(),
        Protection::execute(),
        Protection::read_write(),
        Protection::read_execute(),
        Protection::read_write_execute(),
    ];
    for p in all {
        assert!(p.contains(p));
    }
}

#[test]
fn containment_is_monotonic() {
    assert!(Protection::read_write().contains(Protection::read()));
    assert!(Protection::read_write().contains(Protection::write()));
    assert!(!Protection::read().contains(Protection::write()));
    assert!(Protection::read_write_execute().contains(Protection::read_execute()));
    assert!(!Protection::read_execute().contains(Protection::write()));
}

#[test]
fn everything_contains_none() {
    assert!(Protection::none().contains(Protection::none()));
    assert!(Protection::read().contains(Protection::none()));
    assert!(Protection::read_write_execute().contains(Protection::none()));
}

#[test]
fn composites_are_unions() {
    assert_eq!(Protection::read().or(Protection::write()), Protection::read_write());
    assert_eq!(Protection::read().or(Protection::execute()), Protection::read_execute());
    assert_eq!(
        Protection::read().or(Protection::write()).or(Protection::execute()),
        Protection::read_write_execute()
    );
}

#[test]
fn bitwise_operations() {
    assert_eq!(Protection::read_write().and(Protection::read()), Protection::read());
    assert_eq!(Protection::read_write().xor(Protection::read()), Protection::write());
    assert_eq!(Protection::read().xor(Protection::read()), Protection::none());
    assert_eq!(Protection::none().or(Protection::execute()), Protection::execute());
    assert_eq!(Protection::read_execute().and(Protection::read_write()), Protection::read());
}
