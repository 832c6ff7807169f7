use relation::bitvec::{SparseBitMatrix, SparseBitSet, SparseChunk};
use relation::idx::Idx;

fn members(set: &SparseBitSet<usize>) -> Vec<usize> {
    set.iter()
}

#[test]
fn chunk_one_holds_only_its_index() {
    let chunk: SparseChunk<usize> = SparseChunk::one(130);
    assert!(chunk.any());
    assert_eq!(chunk.iter(), vec![130]);
}

#[test]
fn chunk_one_at_word_boundaries() {
    assert_eq!(SparseChunk::<usize>::one(0).iter(), vec![0]);
    assert_eq!(SparseChunk::<usize>::one(127).iter(), vec![127]);
    assert_eq!(SparseChunk::<usize>::one(128).iter(), vec![128]);
    assert_eq!(SparseChunk::<usize>::one(255).iter(), vec![255]);
}

#[test]
fn chunk_bits_eq_compares_bits() {
    let a: SparseChunk<usize> = SparseChunk::one(5);
    let b: SparseChunk<usize> = SparseChunk::one(5);
    let c: SparseChunk<usize> = SparseChunk::one(6);
    assert!(a.bits_eq(b));
    assert!(!a.bits_eq(c));
}

#[test]
fn chunk_with_u32_identifiers() {
    let chunk: SparseChunk<u32> = SparseChunk::one(<u32 as Idx>::new(300));
    assert_eq!(chunk.iter(), vec![300u32]);
}

#[test]
fn set_starts_empty() {
    let set: SparseBitSet<usize> = SparseBitSet::new();
    assert_eq!(members(&set), Vec::<usize>::new());
    assert_eq!(set.capacity(), 0);
    assert!(!set.contains(0));
    assert_eq!(set.chunks().len(), 0);
}

#[test]
fn set_insert_reports_change() {
    let mut set: SparseBitSet<usize> = SparseBitSet::new();
    assert!(set.insert(3));
    assert!(!set.insert(3));
    assert!(set.insert(200));
    assert!(set.contains(3));
    assert!(set.contains(200));
    assert!(!set.contains(4));
    assert_eq!(members(&set), vec![3, 200]);
}

#[test]
fn set_remove_reports_change() {
    let mut set: SparseBitSet<usize> = SparseBitSet::new();
    set.insert(3);
    set.insert(4);
    assert!(set.remove(3));
    assert!(!set.remove(3));
    assert!(!set.remove(1000));
    assert_eq!(members(&set), vec![4]);
}

#[test]
fn set_drops_chunk_that_becomes_empty() {
    let mut set: SparseBitSet<usize> = SparseBitSet::new();
    set.insert(1);
    set.insert(129);
    assert_eq!(set.capacity(), 256);
    set.remove(129);
    assert_eq!(set.capacity(), 128);
    assert_eq!(set.chunks().len(), 1);
    set.remove(1);
    assert_eq!(set.capacity(), 0);
    assert_eq!(set.chunks().len(), 0);
}

#[test]
fn set_iterates_in_increasing_order() {
    let mut set: SparseBitSet<usize> = SparseBitSet::new();
    for &i in [900usize, 5, 128, 127, 0, 129, 4000].iter() {
        set.insert(i);
    }
    assert_eq!(members(&set), vec![0, 5, 127, 128, 129, 900, 4000]);
}

#[test]
fn set_chunks_come_by_key_and_are_not_empty() {
    let mut set: SparseBitSet<usize> = SparseBitSet::new();
    set.insert(700);
    set.insert(1);
    set.insert(2);
    set.insert(300);
    let chunks = set.chunks();
    assert_eq!(chunks.len(), 3);
    assert_eq!(chunks[0].iter(), vec![1, 2]);
    assert_eq!(chunks[1].iter(), vec![300]);
    assert_eq!(chunks[2].iter(), vec![700]);
    for chunk in chunks.iter() {
        assert!(chunk.any());
    }
}

#[test]
fn contains_chunk_gives_the_common_part() {
    let mut set: SparseBitSet<usize> = SparseBitSet::new();
    set.insert(1);
    set.insert(2);
    let mut probe: SparseBitSet<usize> = SparseBitSet::new();
    probe.insert(2);
    probe.insert(3);
    let chunk = probe.chunks()[0];
    let common = set.contains_chunk(chunk);
    assert_eq!(common.iter(), vec![2]);
    assert!(!common.bits_eq(chunk));
    let two: SparseChunk<usize> = SparseChunk::one(2);
    assert!(set.contains_chunk(two).bits_eq(two));
    let far: SparseChunk<usize> = SparseChunk::one(500);
    assert!(!set.contains_chunk(far).any());
}

#[test]
fn insert_chunk_returns_what_is_new() {
    let mut set: SparseBitSet<usize> = SparseBitSet::new();
    set.insert(1);
    set.insert(2);
    let mut other: SparseBitSet<usize> = SparseBitSet::new();
    other.insert(2);
    other.insert(3);
    other.insert(4);
    let added = set.insert_chunk(other.chunks()[0]);
    assert_eq!(added.iter(), vec![3, 4]);
    assert_eq!(members(&set), vec![1, 2, 3, 4]);
    let again = set.insert_chunk(other.chunks()[0]);
    assert!(!again.any());
}

#[test]
fn insert_chunk_without_bits_changes_nothing() {
    let mut set: SparseBitSet<usize> = SparseBitSet::new();
    set.insert(1);
    let absent = set.contains_chunk(SparseChunk::one(700));
    assert!(!absent.any());
    let added = set.insert_chunk(absent);
    assert!(!added.any());
    assert_eq!(set.capacity(), 128);
    assert_eq!(members(&set), vec![1]);
}

#[test]
fn remove_chunk_returns_what_was_there() {
    let mut set: SparseBitSet<usize> = SparseBitSet::new();
    set.insert(1);
    set.insert(2);
    set.insert(300);
    let mut other: SparseBitSet<usize> = SparseBitSet::new();
    other.insert(2);
    other.insert(3);
    let removed = set.remove_chunk(other.chunks()[0]);
    assert_eq!(removed.iter(), vec![2]);
    assert_eq!(members(&set), vec![1, 300]);
    let nothing = set.remove_chunk(SparseChunk::one(900));
    assert!(!nothing.any());
    assert_eq!(members(&set), vec![1, 300]);
}

#[test]
fn insert_chunks_unions_and_reports_growth() {
    let mut set: SparseBitSet<usize> = SparseBitSet::new();
    set.insert(1);
    set.insert(500);
    let mut other: SparseBitSet<usize> = SparseBitSet::new();
    other.insert(1);
    assert!(!set.insert_chunks(&other));
    other.insert(130);
    assert!(set.insert_chunks(&other));
    assert_eq!(members(&set), vec![1, 130, 500]);
    assert!(!set.insert_chunks(&other));
}

#[test]
fn clear_empties_the_set() {
    let mut set: SparseBitSet<usize> = SparseBitSet::new();
    set.insert(1);
    set.insert(1000);
    set.clear();
    assert_eq!(members(&set), Vec::<usize>::new());
    assert_eq!(set.capacity(), 0);
}

#[test]
fn clone_of_set_is_independent() {
    let mut set: SparseBitSet<usize> = SparseBitSet::new();
    set.insert(7);
    let copy = set.clone();
    set.insert(8);
    assert_eq!(members(&copy), vec![7]);
    assert_eq!(members(&set), vec![7, 8]);
}

#[test]
fn matrix_add_and_contains() {
    let mut m: SparseBitMatrix<usize, usize> = SparseBitMatrix::new(3, 3);
    assert_eq!(m.rows().len(), 3);
    assert!(m.add(0, 2));
    assert!(!m.add(0, 2));
    assert!(m.contains(0, 2));
    assert!(!m.contains(2, 0));
    assert!(!m.contains(1, 2));
    assert_eq!(m.iter(0), vec![2]);
    assert_eq!(m.iter(1), Vec::<usize>::new());
}

#[test]
fn matrix_merge_adds_the_bits_of_a_row() {
    let mut m: SparseBitMatrix<usize, usize> = SparseBitMatrix::new(3, 300);
    m.add(0, 1);
    m.add(0, 200);
    m.add(1, 1);
    assert!(m.merge(0, 1));
    assert_eq!(m.iter(1), vec![1, 200]);
    assert_eq!(m.iter(0), vec![1, 200]);
    assert!(!m.merge(0, 1));
    assert!(!m.merge(2, 1));
}

#[test]
fn matrix_merge_of_a_row_into_itself_is_no_change() {
    let mut m: SparseBitMatrix<usize, usize> = SparseBitMatrix::new(2, 2);
    m.add(0, 1);
    assert!(!m.merge(0, 0));
    assert_eq!(m.iter(0), vec![1]);
}

#[test]
fn matrix_is_subset() {
    let mut m: SparseBitMatrix<usize, usize> = SparseBitMatrix::new(3, 500);
    m.add(0, 1);
    m.add(1, 1);
    m.add(1, 400);
    assert!(m.is_subset(0, 1));
    assert!(!m.is_subset(1, 0));
    assert!(m.is_subset(2, 0));
    assert!(m.is_subset(1, 1));
    assert!(!m.is_subset(0, 2));
}

#[test]
fn matrix_rows_can_be_read_and_changed() {
    let mut m: SparseBitMatrix<usize, usize> = SparseBitMatrix::new(2, 10);
    m.row_mut(1).insert(4);
    assert!(m.row(1).contains(4));
    assert!(!m.row(0).contains(4));
    assert_eq!(m.rows()[1].iter(), vec![4]);
    let copy = m.clone();
    m.row_mut(1).clear();
    assert_eq!(m.iter(1), Vec::<usize>::new());
    assert_eq!(copy.iter(1), vec![4]);
}
