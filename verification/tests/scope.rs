use circom2_compiler::error::Error;
use circom2_compiler::retval::ReturnValue;
use circom2_compiler::scope::layout_frame;
use circom2_compiler::scope::Scope;
use circom2_compiler::scope::ScopeValue;

fn is_bool(v: Option<&ScopeValue>, expected: bool) -> bool {
    matches!(v, Some(ScopeValue::Bool(b)) if *b == expected)
}

#[test]
fn insert_then_get_finds_the_binding() {
    let mut s = Scope::new(true, None, "main:1:1".to_string());
    assert!(s.insert("x".to_string(), ScopeValue::Bool(true)).is_ok());
    assert!(s.get("x", |v| is_bool(v, true)));
    assert!(s.contains_key("x"));
    assert!(!s.contains_key("y"));
    assert!(s.get("y", |v| v.is_none()));
}

#[test]
fn insert_of_a_bound_name_is_rejected() {
    let mut s = Scope::new(true, None, "main:1:1".to_string());
    assert!(s.insert("x".to_string(), ScopeValue::Bool(true)).is_ok());
    let r = s.insert("x".to_string(), ScopeValue::Bool(false));
    assert!(matches!(r, Err(Error::AlreadyDefined(ref n)) if n == "x"));
    assert!(s.get("x", |v| is_bool(v, true)));
}

#[test]
fn resolution_walks_up_the_whole_chain() {
    let mut root = Scope::new(true, None, "root".to_string());
    root.insert("g".to_string(), ScopeValue::Bool(true)).unwrap();
    let mut body = Scope::new(true, Some(root), "body".to_string());
    body.insert("p".to_string(), ScopeValue::Bool(false)).unwrap();
    let mut block = Scope::new(false, Some(body), "block".to_string());
    block.insert("l".to_string(), ScopeValue::Undefined).unwrap();
    assert!(block.contains_key("l"));
    assert!(block.contains_key("p"));
    assert!(block.contains_key("g"));
    assert!(!block.contains_key("none"));
    assert!(block.root().contains_key("g"));
    assert!(block.get("p", |v| is_bool(v, false)));
    assert!(block.get("g", |v| is_bool(v, true)));
    assert!(matches!(block.lookup("g"), Some(ScopeValue::Bool(true))));
}

#[test]
fn a_read_reaches_a_binding_behind_a_boundary_frame() {
    let mut g = Scope::new(true, None, "g".to_string());
    g.insert("x".to_string(), ScopeValue::Bool(true)).unwrap();
    let f = Scope::new(true, Some(g), "f".to_string());
    assert!(f.get("x", |v| matches!(v, Some(ScopeValue::Bool(true)))));
    assert!(f.contains_key("x"));
}

#[test]
fn a_write_reaches_a_binding_behind_a_boundary_frame() {
    let mut g = Scope::new(true, None, "g".to_string());
    g.insert("x".to_string(), ScopeValue::Bool(true)).unwrap();
    let mut f = Scope::new(true, Some(g), "f".to_string());
    assert!(f.update("x", ScopeValue::Bool(false)).is_ok());
    match f.get_mut("x") {
        Some(v) => {
            assert!(matches!(v, ScopeValue::Bool(false)));
            *v = ScopeValue::Undefined;
        }
        None => panic!("x is bound in the enclosing frame"),
    }
    let g = f.into_prev().unwrap();
    assert!(matches!(g.lookup("x"), Some(ScopeValue::Undefined)));
}

#[test]
fn local_resolution_ends_at_the_first_boundary_frame() {
    let mut g = Scope::new(true, None, "g".to_string());
    g.insert("x".to_string(), ScopeValue::Bool(true)).unwrap();
    let mut f = Scope::new(true, Some(g), "f".to_string());
    f.insert("p".to_string(), ScopeValue::Bool(false)).unwrap();
    let mut block = Scope::new(false, Some(f), "block".to_string());
    assert!(matches!(block.lookup_local("p"), Some(ScopeValue::Bool(false))));
    assert!(block.lookup_local("x").is_none());
    assert!(matches!(block.lookup("x"), Some(ScopeValue::Bool(true))));
    assert!(block.update_local("p", ScopeValue::Bool(true)).is_ok());
    assert!(matches!(block.lookup_local("p"), Some(ScopeValue::Bool(true))));
    let r = block.update_local("x", ScopeValue::Bool(false));
    assert!(matches!(r, Err(Error::NotFound(ref n)) if n == "x"));
    assert!(matches!(block.lookup("x"), Some(ScopeValue::Bool(true))));
}

#[test]
fn a_frame_is_laid_out_line_by_line() {
    let bindings = vec![("x".to_string(), "1".to_string()), ("yy".to_string(), "Two".to_string())];
    let top = layout_frame("a:1:2", true, "None", &bindings, &None);
    assert_eq!(top, "--------------------------------------------\na:1:2\n  start: true\n  return_value: None\n");
    let inner = layout_frame("b:3:4", false, "Some(7)", &bindings, &Some(top.clone()));
    let expected = "--------------------------------------------\nb:3:4\n  start: false\n  return_value: Some(7)\n  x: 1\n  yy: Two\n--------------------------------------------\na:1:2\n  start: true\n  return_value: None\n\n";
    assert_eq!(inner, expected);
    let bare = layout_frame("", false, "", &vec![], &Some(String::new()));
    assert_eq!(bare, "--------------------------------------------\n\n  start: false\n  return_value: \n\n");
}

#[test]
fn update_changes_the_nearest_binding() {
    let mut body = Scope::new(true, None, "body".to_string());
    body.insert("x".to_string(), ScopeValue::Undefined).unwrap();
    let mut block = Scope::new(false, Some(body), "block".to_string());
    assert!(block.update("x", ScopeValue::Bool(true)).is_ok());
    assert!(block.get("x", |v| is_bool(v, true)));
    let body = block.into_prev().unwrap();
    assert!(body.get("x", |v| is_bool(v, true)));
}

#[test]
fn update_of_an_unbound_name_fails() {
    let mut s = Scope::new(true, None, "body".to_string());
    let r = s.update("nope", ScopeValue::Bool(true));
    assert!(matches!(r, Err(Error::NotFound(ref n)) if n == "nope"));
}

#[test]
fn get_mut_changes_the_binding_in_place() {
    let mut body = Scope::new(true, None, "body".to_string());
    body.insert("x".to_string(), ScopeValue::Bool(false)).unwrap();
    let mut block = Scope::new(false, Some(body), "block".to_string());
    match block.get_mut("x") {
        Some(v) => *v = ScopeValue::Bool(true),
        None => panic!("x is bound"),
    }
    assert!(block.get("x", |v| is_bool(v, true)));
    assert!(block.get_mut("y").is_none());
}

#[test]
fn return_lands_in_the_enclosing_boundary_frame() {
    let body = Scope::new(true, None, "body".to_string());
    let outer = Scope::new(false, Some(body), "if".to_string());
    let mut inner = Scope::new(false, Some(outer), "for".to_string());
    assert!(!inner.has_return());
    assert!(inner.set_return(ReturnValue::Bool(true)).is_ok());
    assert!(inner.has_return());
    assert!(inner.return_value.is_none());
    let outer = inner.into_prev().unwrap();
    assert!(outer.return_value.is_none());
    let mut body = outer.into_prev().unwrap();
    assert!(matches!(body.return_value, Some(ReturnValue::Bool(true))));
    assert!(matches!(body.take_return(), Some(ReturnValue::Bool(true))));
    assert!(!body.has_return());
    assert!(body.take_return().is_none());
}

#[test]
fn return_without_a_boundary_frame_fails() {
    let mut s = Scope::new(false, None, "top:3:1".to_string());
    let r = s.set_return(ReturnValue::Bool(true));
    assert!(matches!(r, Err(Error::NoEnclosingReturnTarget(ref p)) if p == "top:3:1"));
    assert!(!s.has_return());
    assert!(s.take_return().is_none());
}

#[test]
fn scope_value_from_return_value_keeps_the_payload() {
    assert!(matches!(ScopeValue::from(ReturnValue::Bool(true)), ScopeValue::Bool(true)));
    assert!(matches!(ScopeValue::from(ReturnValue::Array(vec![])), ScopeValue::Array(ref a) if a.is_empty()));
}

#[test]
fn describe_lists_frames_from_the_innermost() {
    let mut root = Scope::new(true, None, "root".to_string());
    root.insert("hidden".to_string(), ScopeValue::Bool(true)).unwrap();
    let mut block = Scope::new(false, Some(root), "block".to_string());
    block.insert("x".to_string(), ScopeValue::Bool(true)).unwrap();
    let text = block.describe();
    let expected = "--------------------------------------------\nblock\n  start: false\n  return_value: None\n  x: Bool(true)\n--------------------------------------------\nroot\n  start: true\n  return_value: None\n\n";
    assert_eq!(text, expected);
}

#[test]
fn describe_shows_a_pending_return() {
    let mut body = Scope::new(true, None, "f".to_string());
    body.set_return(ReturnValue::Bool(true)).unwrap();
    let expected = "--------------------------------------------\nf\n  start: true\n  return_value: Some(Bool(true))\n";
    assert_eq!(body.describe(), expected);
}

#[test]
fn lookup_returns_the_nearest_binding() {
    let mut body = Scope::new(true, None, "body".to_string());
    body.insert("x".to_string(), ScopeValue::Bool(false)).unwrap();
    let mut block = Scope::new(false, Some(body), "block".to_string());
    block.insert("x".to_string(), ScopeValue::Bool(true)).unwrap();
    assert!(matches!(block.lookup("x"), Some(ScopeValue::Bool(true))));
    assert!(block.lookup("y").is_none());
    assert!(block.update("x", ScopeValue::Undefined).is_ok());
    assert!(matches!(block.lookup("x"), Some(ScopeValue::Undefined)));
    let body = block.into_prev().unwrap();
    assert!(matches!(body.lookup("x"), Some(ScopeValue::Bool(false))));
    assert!(body.into_prev().is_none());
}
