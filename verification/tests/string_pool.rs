use lambda::string_pool::StringPool;

#[test]
fn get_str_gives_back_what_get_index_stored() {
    let mut pool = StringPool::new();
    let a = pool.get_index("alpha");
    let b = pool.get_index("beta");
    assert_eq!(pool.get_str(a), "alpha");
    assert_eq!(pool.get_str(b), "beta");
}

#[test]
fn same_string_same_index() {
    let mut pool = StringPool::new();
    let a = pool.get_index("x");
    let b = pool.get_index("y");
    let a2 = pool.get_index("x");
    assert_eq!(a, 0);
    assert_eq!(b, 1);
    assert_eq!(a2, a);
    assert_eq!(pool.len(), 2);
}

#[test]
fn distinct_strings_distinct_indices() {
    let mut pool = StringPool::new();
    let a = pool.get_index("x");
    let b = pool.get_index("x$0");
    assert_ne!(a, b);
    assert_eq!(pool.get_str(a), "x");
    assert_eq!(pool.get_str(b), "x$0");
}
