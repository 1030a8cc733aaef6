use race::process::{ProcessData, ProcessDataLineIter};

#[test]
fn proc_data_line_iter() {
    let data = ProcessData::with_cmdline(0, "blablub".to_owned());
    let mut iter = ProcessDataLineIter::new(&data);
    assert_eq!(iter.next(), Some("blablub".to_string()));
    assert_eq!(iter.next(), None);

    let data = ProcessData::with_cmdline(123, "blab\nlub".to_owned());
    let mut iter = ProcessDataLineIter::new(&data);
    assert_eq!(iter.next(), Some("blab".to_string()));
    assert_eq!(iter.next(), Some("lub".to_string()));
    assert_eq!(iter.next(), None);
}
