use mini_lsm::block::builder::BlockBuilder;
use mini_lsm::block::iterator::BlockIterator;
use mini_lsm::iterators::merge_iterator::MergeIterator;
use mini_lsm::iterators::{Remaining, StorageIterator};
use std::sync::Arc;

/// A source over a list of pairs that fails when it is asked to move to the
/// entry at `error_when`.
#[derive(Clone)]
struct MockIterator {
    data: Vec<(Vec<u8>, Vec<u8>)>,
    error_when: Option<usize>,
    index: usize,
}

impl MockIterator {
    fn new(pairs: &[(&str, &str)]) -> Self {
        Self {
            data: pairs
                .iter()
                .map(|(k, v)| (k.as_bytes().to_vec(), v.as_bytes().to_vec()))
                .collect(),
            error_when: None,
            index: 0,
        }
    }

    fn new_with_error(pairs: &[(&str, &str)], error_when: usize) -> Self {
        let mut it = Self::new(pairs);
        it.error_when = Some(error_when);
        it
    }
}

impl StorageIterator for MockIterator {
    fn inv(&self) -> bool {
        true
    }

    fn remaining(&self) -> Remaining {
        unreachable!()
    }

    fn reliable(&self) -> bool {
        false
    }

    fn lemma_increasing(&self) {}

    fn value(&self) -> &[u8] {
        &self.data[self.index].1
    }

    fn key(&self) -> &[u8] {
        &self.data[self.index].0
    }

    fn is_valid(&self) -> bool {
        self.index < self.data.len()
    }

    fn next(&mut self) -> Result<(), anyhow::Error> {
        if self.index < self.data.len() {
            self.index += 1;
        }
        if let Some(error_when) = self.error_when {
            if self.index == error_when {
                return Err(anyhow::Error::msg("fake error"));
            }
        }
        Ok(())
    }
}

fn drain<I: StorageIterator>(iter: &mut MergeIterator<I>) -> Vec<(String, String)> {
    let mut out = Vec::new();
    while iter.is_valid() {
        out.push((
            String::from_utf8(iter.key().to_vec()).unwrap(),
            String::from_utf8(iter.value().to_vec()).unwrap(),
        ));
        assert!(iter.next().is_ok());
    }
    out
}

fn pairs(list: &[(&str, &str)]) -> Vec<(String, String)> {
    list.iter().map(|(k, v)| (k.to_string(), v.to_string())).collect()
}

#[test]
fn equal_keys_surface_from_the_lower_index() {
    let a = MockIterator::new(&[("k", "A-val")]);
    let b = MockIterator::new(&[("k", "B-val")]);
    let mut iter = MergeIterator::create(vec![Box::new(a), Box::new(b)]);
    assert!(iter.is_valid());
    assert_eq!(iter.key(), b"k");
    assert_eq!(iter.value(), b"A-val");
    assert!(iter.next().is_ok());
    assert!(!iter.is_valid());
}

#[test]
fn equal_keys_in_the_other_order_of_sources() {
    let a = MockIterator::new(&[("k", "A-val")]);
    let b = MockIterator::new(&[("k", "B-val")]);
    let mut iter = MergeIterator::create(vec![Box::new(b), Box::new(a)]);
    assert_eq!(drain(&mut iter), pairs(&[("k", "B-val")]));
}

#[test]
fn keys_come_out_in_order() {
    let a = MockIterator::new(&[("b", "1"), ("d", "2")]);
    let b = MockIterator::new(&[("a", "3"), ("c", "4")]);
    let mut iter = MergeIterator::create(vec![Box::new(a), Box::new(b)]);
    assert_eq!(drain(&mut iter), pairs(&[("a", "3"), ("b", "1"), ("c", "4"), ("d", "2")]));
}

#[test]
fn three_sources_with_shared_keys() {
    let i1 = MockIterator::new(&[("a", "1.1"), ("b", "2.1"), ("c", "3.1"), ("e", "")]);
    let i2 = MockIterator::new(&[("a", "1.2"), ("b", "2.2"), ("c", "3.2"), ("d", "4.2")]);
    let i3 = MockIterator::new(&[("b", "2.3"), ("c", "3.3"), ("d", "4.3")]);
    let mut iter = MergeIterator::create(vec![
        Box::new(i1.clone()),
        Box::new(i2.clone()),
        Box::new(i3.clone()),
    ]);
    assert_eq!(
        drain(&mut iter),
        pairs(&[("a", "1.1"), ("b", "2.1"), ("c", "3.1"), ("d", "4.2"), ("e", "")])
    );
    let mut iter = MergeIterator::create(vec![Box::new(i3), Box::new(i1), Box::new(i2)]);
    assert_eq!(
        drain(&mut iter),
        pairs(&[("a", "1.1"), ("b", "2.3"), ("c", "3.3"), ("d", "4.3"), ("e", "")])
    );
}

#[test]
fn many_sources_interleave() {
    let mut sources = Vec::new();
    for s in 0..7usize {
        let mut data = Vec::new();
        for i in 0..40usize {
            if (i + s) % 3 != 0 {
                data.push((format!("{:04}", i), format!("{}@{}", i, s)));
            }
        }
        sources.push(data);
    }
    let iters: Vec<Box<MockIterator>> = sources
        .iter()
        .map(|d| {
            let refs: Vec<(&str, &str)> = d.iter().map(|(k, v)| (k.as_str(), v.as_str())).collect();
            Box::new(MockIterator::new(&refs))
        })
        .collect();
    let mut iter = MergeIterator::create(iters);
    let mut expected = Vec::new();
    for i in 0..40usize {
        let s = (0..7usize).find(|s| (i + s) % 3 != 0).unwrap();
        expected.push((format!("{:04}", i), format!("{}@{}", i, s)));
    }
    assert_eq!(drain(&mut iter), expected);
}

#[test]
fn no_sources_give_an_invalid_iterator() {
    let iter: MergeIterator<MockIterator> = MergeIterator::create(vec![]);
    assert!(!iter.is_valid());
}

#[test]
fn exhausted_sources_give_an_invalid_iterator() {
    let iter = MergeIterator::create(vec![
        Box::new(MockIterator::new(&[])),
        Box::new(MockIterator::new(&[])),
    ]);
    assert!(!iter.is_valid());
}

#[test]
fn exhausted_sources_are_left_out() {
    let mut iter = MergeIterator::create(vec![
        Box::new(MockIterator::new(&[])),
        Box::new(MockIterator::new(&[("a", "1")])),
        Box::new(MockIterator::new(&[])),
    ]);
    assert_eq!(drain(&mut iter), pairs(&[("a", "1")]));
}

#[test]
fn failure_of_a_pending_source_is_handed_on() {
    let a = MockIterator::new(&[("a", "A1"), ("c", "A2")]);
    let b = MockIterator::new_with_error(&[("a", "B1"), ("b", "B2"), ("d", "B3")], 1);
    let mut iter = MergeIterator::create(vec![Box::new(a), Box::new(b)]);
    assert_eq!(iter.key(), b"a");
    assert_eq!(iter.value(), b"A1");
    let r = iter.next();
    assert!(r.is_err());
    assert_eq!(r.unwrap_err().to_string(), "fake error");
    // the source that failed is gone; the other one goes on alone
    assert!(iter.is_valid());
    assert_eq!(iter.key(), b"a");
    assert_eq!(iter.value(), b"A1");
    assert!(iter.next().is_ok());
    assert_eq!(iter.key(), b"c");
    assert_eq!(iter.value(), b"A2");
    assert!(iter.next().is_ok());
    assert!(!iter.is_valid());
}

#[test]
fn failed_source_never_comes_back() {
    let a = MockIterator::new(&[("a", "A1"), ("b", "A2"), ("e", "A3")]);
    let b = MockIterator::new_with_error(&[("a", "B1"), ("c", "B2"), ("d", "B3")], 1);
    let c = MockIterator::new(&[("a", "C1"), ("d", "C2")]);
    let mut iter = MergeIterator::create(vec![Box::new(a), Box::new(b), Box::new(c)]);
    let mut seen = Vec::new();
    let mut failures = 0;
    while iter.is_valid() {
        let here = (
            String::from_utf8(iter.key().to_vec()).unwrap(),
            String::from_utf8(iter.value().to_vec()).unwrap(),
        );
        if seen.last() != Some(&here) {
            seen.push(here);
        }
        if iter.next().is_err() {
            failures += 1;
        }
    }
    assert_eq!(failures, 1);
    assert_eq!(seen, pairs(&[("a", "A1"), ("b", "A2"), ("d", "C2"), ("e", "A3")]));
}

#[test]
fn readmit_hands_the_outcome_on() {
    let a = MockIterator::new(&[("a", "1"), ("b", "2")]);
    let spent = MockIterator::new(&[]);
    let mut iter = MergeIterator::create(vec![Box::new(a), Box::new(spent)]);
    // source 1 had nothing to give, so it is out of play
    let r = iter.readmit(1, Err(anyhow::Error::msg("boom")));
    assert_eq!(r.unwrap_err().to_string(), "boom");
    assert!(iter.is_valid());
    assert_eq!(iter.key(), b"a");
    assert!(iter.readmit(1, Ok(())).is_ok());
    assert_eq!(drain(&mut iter), pairs(&[("a", "1"), ("b", "2")]));
}

#[test]
fn promote_hands_the_outcome_on() {
    let a = MockIterator::new_with_error(&[("a", "1"), ("c", "3")], 1);
    let b = MockIterator::new(&[("b", "2")]);
    let mut iter = MergeIterator::create(vec![Box::new(a), Box::new(b)]);
    assert!(iter.next().is_err());
    assert!(!iter.is_valid());
    // the merge has no current source, and source 0 is out of play
    let r = iter.promote(0, Err(anyhow::Error::msg("still broken")));
    assert_eq!(r.unwrap_err().to_string(), "still broken");
    assert!(!iter.is_valid());
}

#[test]
fn failure_of_the_current_source_is_handed_on() {
    let a = MockIterator::new_with_error(&[("a", "A1"), ("c", "A2")], 1);
    let b = MockIterator::new(&[("b", "B1")]);
    let mut iter = MergeIterator::create(vec![Box::new(a), Box::new(b)]);
    assert_eq!(iter.key(), b"a");
    let r = iter.next();
    assert!(r.is_err());
    assert_eq!(r.unwrap_err().to_string(), "fake error");
    assert!(!iter.is_valid());
}

#[test]
fn failure_late_in_a_merge() {
    let a = MockIterator::new(&[("a", "1"), ("b", "2"), ("c", "3")]);
    let b = MockIterator::new_with_error(&[("a", "x"), ("b", "y"), ("c", "z")], 2);
    let mut iter = MergeIterator::create(vec![Box::new(a.clone()), Box::new(a), Box::new(b)]);
    assert_eq!(iter.key(), b"a");
    assert!(iter.next().is_ok());
    assert_eq!(iter.key(), b"b");
    assert_eq!(iter.value(), b"2");
    assert!(iter.next().is_err());
}

#[test]
fn merge_of_block_iterators() {
    let mut first = BlockBuilder::new(4096);
    assert!(first.add(b"a", b"new a"));
    assert!(first.add(b"c", b"new c"));
    let mut second = BlockBuilder::new(4096);
    assert!(second.add(b"a", b"old a"));
    assert!(second.add(b"b", b"old b"));
    assert!(second.add(b"d", b"old d"));
    let first = BlockIterator::create_and_seek_to_first(Arc::new(first.build()));
    let second = BlockIterator::create_and_seek_to_key(Arc::new(second.build()), b"a");
    let mut iter = MergeIterator::create(vec![Box::new(first), Box::new(second)]);
    assert_eq!(
        drain(&mut iter),
        pairs(&[("a", "new a"), ("b", "old b"), ("c", "new c"), ("d", "old d")])
    );
}

#[test]
fn merge_of_merges() {
    let a = MockIterator::new(&[("a", "1"), ("e", "5")]);
    let b = MockIterator::new(&[("b", "2"), ("e", "x")]);
    let c = MockIterator::new(&[("a", "y"), ("c", "3")]);
    let d = MockIterator::new(&[("d", "4")]);
    let left = MergeIterator::create(vec![Box::new(a), Box::new(b)]);
    let right = MergeIterator::create(vec![Box::new(c), Box::new(d)]);
    let mut iter = MergeIterator::create(vec![Box::new(left), Box::new(right)]);
    assert_eq!(
        drain(&mut iter),
        pairs(&[("a", "1"), ("b", "2"), ("c", "3"), ("d", "4"), ("e", "5")])
    );
}

#[test]
fn block_iterator_as_a_source() {
    let mut builder = BlockBuilder::new(4096);
    assert!(builder.add(b"a", b"1"));
    assert!(builder.add(b"b", b"2"));
    let mut iter = BlockIterator::create_and_seek_to_first(Arc::new(builder.build()));
    assert!(StorageIterator::is_valid(&iter));
    assert_eq!(StorageIterator::key(&iter), b"a");
    assert_eq!(StorageIterator::value(&iter), b"1");
    assert!(StorageIterator::next(&mut iter).is_ok());
    assert_eq!(StorageIterator::key(&iter), b"b");
    assert!(StorageIterator::next(&mut iter).is_ok());
    assert!(!StorageIterator::is_valid(&iter));
}
