use subs_copy::subs::Subs;

#[test]
fn quicksort_app() {
    // The benchmark this exercised is disabled; the store itself must still
    // construct cleanly.
    let subs = Subs::new();
    assert_eq!(subs.utable.len(), 3);
    println!("WARNING: skipping testing benchmark quicksortApp.roc because the test is broken right now!");
}
