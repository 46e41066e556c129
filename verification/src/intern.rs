//! Line classes: every distinct line gets a small number, so that two lines
//! are equal exactly when their numbers are.

use vstd::prelude::*;
use crate::text::{line_views, lines_equal};

verus! {

/// One step of the rolling hash: the hash so far, times 33, plus the next
/// character, cut to 64 bits.
pub open spec fn hash_step(h: u64, c: char) -> u64 {
    ((h as int * 33 + c as u32 as int) % 0x1_0000_0000_0000_0000) as u64
}

/// The rolling hash of a line.
pub open spec fn hash_of(s: Seq<char>) -> u64
    decreases s.len(),
{
    if s.len() == 0 {
        5381
    } else {
        hash_step(hash_of(s.drop_last()), s.last())
    }
}

/// Computes the rolling hash of a line.
pub fn line_hash(line: &Vec<char>) -> (h: u64)
    ensures
        h == hash_of(line@),
{
    let mut h: u64 = 5381;
    let mut i: usize = 0;
    assert(line@.subrange(0, 0) =~= Seq::<char>::empty());
    while i < line.len()
        invariant
            i <= line.len(),
            h == hash_of(line@.subrange(0, i as int)),
        decreases line.len() - i,
    {
        let c: char = line[i];
        let wide: u128 = (h as u128) * 33 + (c as u32 as u128);
        proof {
            let next = line@.subrange(0, i + 1);
            assert(next.drop_last() =~= line@.subrange(0, i as int));
            assert(next.last() == c);
        }
        h = (wide % 0x1_0000_0000_0000_0000u128) as u64;
        i += 1;
    }
    assert(line@.subrange(0, i as int) =~= line@);
    h
}

/// A copy of a line.
pub fn copy_line(line: &Vec<char>) -> (r: Vec<char>)
    ensures
        r@ == line@,
{
    let mut r: Vec<char> = Vec::new();
    let mut i: usize = 0;
    while i < line.len()
        invariant
            i <= line.len(),
            r@ == line@.subrange(0, i as int),
        decreases line.len() - i,
    {
        r.push(line[i]);
        i += 1;
        assert(r@ =~= line@.subrange(0, i as int));
    }
    assert(line@.subrange(0, i as int) =~= line@);
    r
}

/// A copy of a list of classes with one more class at its end.
fn with_class(list: &Vec<usize>, class: usize) -> (r: Vec<usize>)
    ensures
        r@ == list@.push(class),
{
    let mut r: Vec<usize> = Vec::new();
    let mut i: usize = 0;
    while i < list.len()
        invariant
            i <= list@.len(),
            r@ == list@.subrange(0, i as int),
        decreases list@.len() - i,
    {
        r.push(list[i]);
        i += 1;
        assert(r@ =~= list@.subrange(0, i as int));
    }
    assert(list@.subrange(0, i as int) =~= list@);
    r.push(class);
    r
}

/// The bucket, of `n` buckets, in which a line with the hash `h` is kept.
pub open spec fn bucket_of(h: u64, n: int) -> int {
    (h as int) % n
}

/// The distinct lines seen so far, each with its hash, and an index from
/// the hashes to the lines. The place of a line in the table is its class.
pub struct LineTable {
    pub reps: Vec<Vec<char>>,
    pub hashes: Vec<u64>,
    pub buckets: Vec<Vec<usize>>,
}

impl LineTable {
    /// The table holds no line twice, the hash beside each line is its
    /// own, and every line is found in the bucket of its hash.
    pub open spec fn wf(&self) -> bool {
        &&& self.hashes@.len() == self.reps@.len()
        &&& forall|i: int| 0 <= i < self.reps@.len() ==> self.hashes@[i] == hash_of(#[trigger] self.reps@[i]@)
        &&& forall|i: int, j: int|
            0 <= i < j < self.reps@.len() ==> (#[trigger] self.reps@[i])@ != (#[trigger] self.reps@[j])@
        &&& self.buckets@.len() > 0
        &&& forall|b: int, k: int|
            0 <= b < self.buckets@.len() && 0 <= k < self.buckets@[b]@.len() ==> (#[trigger] self.buckets@[b]@[k])
                < self.reps@.len()
        &&& forall|c: int| 0 <= c < self.reps@.len() ==> self.in_bucket(c)
    }

    /// The class `c` stands in the bucket of its hash.
    pub open spec fn in_bucket(&self, c: int) -> bool {
        exists|k: int|
            0 <= k < self.buckets@[bucket_of(self.hashes@[c], self.buckets@.len() as int)]@.len()
                && #[trigger] self.buckets@[bucket_of(self.hashes@[c], self.buckets@.len() as int)]@[k] == c
    }

    /// The lines of the table, by class.
    pub open spec fn lines(&self) -> Seq<Seq<char>> {
        line_views(self.reps@)
    }

    /// A table without lines, with `size` buckets, or one where `size` is 0.
    pub fn new(size: usize) -> (t: LineTable)
        ensures
            t.wf(),
            t.lines().len() == 0,
    {
        let mut buckets: Vec<Vec<usize>> = Vec::new();
        buckets.push(Vec::new());
        let mut i: usize = 1;
        while i < size
            invariant
                buckets@.len() > 0,
                forall|b: int| 0 <= b < buckets@.len() ==> (#[trigger] buckets@[b])@.len() == 0,
            decreases size - i,
        {
            buckets.push(Vec::new());
            i += 1;
        }
        LineTable { reps: Vec::new(), hashes: Vec::new(), buckets }
    }

    /// The class of `line`; the line enters the table when it is not yet in it.
    pub fn intern(&mut self, line: &Vec<char>) -> (id: usize)
        requires
            old(self).wf(),
        ensures
            final(self).wf(),
            id < final(self).lines().len(),
            final(self).lines()[id as int] == line@,
            old(self).lines().len() <= final(self).lines().len() <= old(self).lines().len() + 1,
            final(self).lines().subrange(0, old(self).lines().len() as int) == old(self).lines(),
    {
        let h: u64 = line_hash(line);
        let count: usize = self.buckets.len();
        let b: usize = (h % (count as u64)) as usize;
        assert(b == bucket_of(h, count as int));
        let mut k: usize = 0;
        while k < self.buckets[b].len()
            invariant
                b < self.buckets@.len(),
                k <= self.buckets@[b as int]@.len(),
                self.wf(),
                *self == *old(self),
                h == hash_of(line@),
                forall|i: int| 0 <= i < k ==> self.reps@[(#[trigger] self.buckets@[b as int]@[i]) as int]@ != line@,
            decreases self.buckets@[b as int]@.len() - k,
        {
            let c: usize = self.buckets[b][k];
            if self.hashes[c] == h && lines_equal(&self.reps[c], line) {
                assert(self.lines().subrange(0, self.lines().len() as int) =~= self.lines());
                return c;
            }
            k += 1;
        }
        proof {
            // A line of the table that equals `line` would stand in the
            // bucket that was searched.
            assert forall|c: int| 0 <= c < self.reps@.len() implies (#[trigger] self.reps@[c])@ != line@ by {
                if self.reps@[c]@ == line@ {
                    assert(self.in_bucket(c));
                }
            }
        }
        let id: usize = self.reps.len();
        let grown: Vec<usize> = with_class(&self.buckets[b], id);
        let copy = copy_line(line);
        self.reps.push(copy);
        self.hashes.push(h);
        self.buckets.set(b, grown);
        proof {
            assert(final(self).lines().subrange(0, old(self).lines().len() as int) =~= old(self).lines());
            assert(self.buckets@.len() == count);
            assert(old(self).buckets@.len() == count);
            assert(self.buckets@[b as int]@ == old(self).buckets@[b as int]@.push(id));
            assert forall|c: int| 0 <= c < self.reps@.len() implies self.in_bucket(c) by {
                let n = count as int;
                if c < id {
                    assert(old(self).in_bucket(c));
                    assert(self.hashes@[c] == old(self).hashes@[c]);
                    let bc = bucket_of(self.hashes@[c], n);
                    assert(0 <= bc < n);
                    let w = choose|w: int|
                        0 <= w < old(self).buckets@[bc]@.len() && #[trigger] old(self).buckets@[bc]@[w] == c;
                    if bc == b {
                        assert(self.buckets@[bc]@[w] == old(self).buckets@[bc]@[w]);
                    } else {
                        assert(self.buckets@[bc] == old(self).buckets@[bc]);
                    }
                    assert(0 <= w < self.buckets@[bc]@.len() && self.buckets@[bc]@[w] == c);
                } else {
                    assert(self.hashes@[c] == h);
                    let bc = bucket_of(self.hashes@[c], n);
                    assert(bc == b);
                    let w = old(self).buckets@[b as int]@.len() as int;
                    assert(0 <= w < self.buckets@[bc]@.len() && self.buckets@[bc]@[w] == c);
                }
            }
            assert forall|bb: int, w: int|
                0 <= bb < self.buckets@.len() && 0 <= w < self.buckets@[bb]@.len() implies (#[trigger] self.buckets@[bb]@[w])
                < self.reps@.len() by {
                if bb == b {
                    if w < old(self).buckets@[bb]@.len() {
                        assert(self.buckets@[bb]@[w] == old(self).buckets@[bb]@[w]);
                    }
                } else {
                    assert(self.buckets@[bb] == old(self).buckets@[bb]);
                    assert(old(self).buckets@[bb]@[w] < old(self).reps@.len());
                }
            }
        }
        id
    }
}

/// The classes of the lines of two sequences, from one common table.
pub struct Classes {
    pub a: Vec<usize>,
    pub b: Vec<usize>,
    pub count: usize,
}

/// `ia` and `ib` number the lines of `la` and `lb` so that equal lines, and
/// only they, get equal numbers, all of them below `count`.
pub open spec fn classifies(
    la: Seq<Seq<char>>,
    lb: Seq<Seq<char>>,
    ia: Seq<usize>,
    ib: Seq<usize>,
    count: int,
) -> bool {
    &&& ia.len() == la.len()
    &&& ib.len() == lb.len()
    &&& forall|i: int| 0 <= i < ia.len() ==> #[trigger] ia[i] < count
    &&& forall|j: int| 0 <= j < ib.len() ==> #[trigger] ib[j] < count
    &&& forall|i: int, j: int|
        0 <= i < ia.len() && 0 <= j < ib.len() ==> ((#[trigger] ia[i] == #[trigger] ib[j]) <==> la[i]
            == lb[j])
}

/// Numbers the lines `a[alo..ahi]` and `b[blo..bhi]` by their content.
pub fn classify(
    a: &Vec<Vec<char>>,
    alo: usize,
    ahi: usize,
    b: &Vec<Vec<char>>,
    blo: usize,
    bhi: usize,
) -> (c: Classes)
    requires
        alo <= ahi <= a@.len(),
        blo <= bhi <= b@.len(),
    ensures
        classifies(
            line_views(a@).subrange(alo as int, ahi as int),
            line_views(b@).subrange(blo as int, bhi as int),
            c.a@,
            c.b@,
            c.count as int,
        ),
        c.count <= (ahi - alo) + (bhi - blo),
{
    let size: usize = if bhi - blo <= usize::MAX - (ahi - alo) {
        (ahi - alo) + (bhi - blo)
    } else {
        usize::MAX
    };
    let mut table = LineTable::new(size);
    let mut ia: Vec<usize> = Vec::new();
    let mut ib: Vec<usize> = Vec::new();
    let ghost la = line_views(a@).subrange(alo as int, ahi as int);
    let ghost lb = line_views(b@).subrange(blo as int, bhi as int);
    let mut i: usize = alo;
    while i < ahi
        invariant
            alo <= i <= ahi <= a@.len(),
            la == line_views(a@).subrange(alo as int, ahi as int),
            table.wf(),
            ia@.len() == i - alo,
            table.lines().len() <= i - alo,
            forall|k: int| 0 <= k < ia@.len() ==> #[trigger] ia@[k] < table.lines().len(),
            forall|k: int| 0 <= k < ia@.len() ==> table.lines()[(#[trigger] ia@[k]) as int] == la[k],
        decreases ahi - i,
    {
        let ghost before = table.lines();
        let id: usize = table.intern(&a[i]);
        proof {
            assert forall|k: int| 0 <= k < ia@.len() implies table.lines()[(#[trigger] ia@[k]) as int]
                == la[k] by {
                assert(table.lines().subrange(0, before.len() as int)[ia@[k] as int] == before[ia@[k] as int]);
            }
        }
        ia.push(id);
        i += 1;
    }
    let mut j: usize = blo;
    while j < bhi
        invariant
            blo <= j <= bhi <= b@.len(),
            la == line_views(a@).subrange(alo as int, ahi as int),
            lb == line_views(b@).subrange(blo as int, bhi as int),
            table.wf(),
            ia@.len() == ahi - alo,
            ib@.len() == j - blo,
            table.lines().len() <= (ahi - alo) + (j - blo),
            forall|k: int| 0 <= k < ia@.len() ==> #[trigger] ia@[k] < table.lines().len(),
            forall|k: int| 0 <= k < ia@.len() ==> table.lines()[(#[trigger] ia@[k]) as int] == la[k],
            forall|k: int| 0 <= k < ib@.len() ==> #[trigger] ib@[k] < table.lines().len(),
            forall|k: int| 0 <= k < ib@.len() ==> table.lines()[(#[trigger] ib@[k]) as int] == lb[k],
        decreases bhi - j,
    {
        let ghost before = table.lines();
        let id: usize = table.intern(&b[j]);
        proof {
            assert forall|k: int| 0 <= k < ia@.len() implies table.lines()[(#[trigger] ia@[k]) as int]
                == la[k] by {
                assert(table.lines().subrange(0, before.len() as int)[ia@[k] as int] == before[ia@[k] as int]);
            }
            assert forall|k: int| 0 <= k < ib@.len() implies table.lines()[(#[trigger] ib@[k]) as int]
                == lb[k] by {
                assert(table.lines().subrange(0, before.len() as int)[ib@[k] as int] == before[ib@[k] as int]);
            }
        }
        ib.push(id);
        j += 1;
    }
    let count: usize = table.reps.len();
    proof {
        assert forall|x: int, y: int| 0 <= x < ia@.len() && 0 <= y < ib@.len() implies ((#[trigger] ia@[x]
            == #[trigger] ib@[y]) <==> la[x] == lb[y]) by {
            let p = ia@[x] as int;
            let q = ib@[y] as int;
            assert(table.lines()[p] == la[x]);
            assert(table.lines()[q] == lb[y]);
            if p != q {
                assert(table.reps@[p]@ != table.reps@[q]@);
            }
        }
    }
    Classes { a: ia, b: ib, count }
}

} // verus!
