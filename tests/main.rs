#[allow(unused_imports)]
use weblib::channel::channel;

#[test]
fn t() {}
