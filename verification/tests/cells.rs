//! Shared-map plumbing check: a reference-counted cell of a hash map can
//! be filled both through a held mutable borrow and through transient
//! borrows.

use std::cell::{RefCell, RefMut};
use std::collections::HashMap;
use std::rc::Rc;

#[test]
fn ref_cell_test() {
    let shared_map: Rc<RefCell<_>> = Rc::new(RefCell::new(HashMap::new()));
    let mut map: RefMut<_> = (*shared_map).borrow_mut();
    map.insert("africa", 92388);
    map.insert("kyoto", 11837);
    map.insert("piccadilly", 11826);
    map.insert("marbles", 38);
    println!("{:?}", shared_map);

    let shared_map: Rc<RefCell<_>> = Rc::new(RefCell::new(HashMap::new()));
    shared_map.borrow_mut().insert("africa", 92388);
    shared_map.borrow_mut().insert("kyoto", 11837);
    shared_map.borrow_mut().insert("piccadilly", 11826);
    shared_map.borrow_mut().insert("marbles", 38);
    println!("{:?}", shared_map);
}
