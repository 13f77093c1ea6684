use vstd::prelude::*;
use vstd::multiset::Multiset;
use vstd::seq_lib::lemma_multiset_commutative;

use crate::midi_track_parser::{MIDIEvent, MIDIEventType, Note, TempoEvent};

verus! {

/// An element that the merges order by an integer key.
pub trait MergeOrder: Sized {
    /// The sort key.
    spec fn order_key(&self) -> int;

    /// Whether, on equal keys, the element of the second sequence goes first.
    spec fn second_on_ties() -> bool;

    fn key(&self) -> (r: u128)
        ensures
            r as int == self.order_key(),
    ;

    fn takes_second_on_ties() -> (r: bool)
        ensures
            r == Self::second_on_ties(),
    ;

    /// A value to leave behind when an element is moved out.
    fn placeholder() -> Self;
}

impl MergeOrder for Note {
    /// Start time first, then track index.
    open spec fn order_key(&self) -> int {
        self.start as int * 0x1_0000_0000_0000_0000 + self.track as int
    }

    open spec fn second_on_ties() -> bool {
        true
    }

    fn key(&self) -> (r: u128) {
        self.start as u128 * 0x1_0000_0000_0000_0000 + self.track as u128
    }

    fn takes_second_on_ties() -> (r: bool) {
        true
    }

    fn placeholder() -> Self {
        Note { start: 0, end: 0, channel: 0, track: 0, velocity: 0 }
    }
}

impl MergeOrder for TempoEvent {
    /// The absolute tick.
    open spec fn order_key(&self) -> int {
        self.time as int
    }

    open spec fn second_on_ties() -> bool {
        true
    }

    fn key(&self) -> (r: u128) {
        self.time as u128
    }

    fn takes_second_on_ties() -> (r: bool) {
        true
    }

    fn placeholder() -> Self {
        TempoEvent { time: 0, time_norm: 0, tempo: 0 }
    }
}

impl MergeOrder for MIDIEvent {
    /// The time in microseconds; equal times keep the first sequence first.
    open spec fn order_key(&self) -> int {
        self.time as int
    }

    open spec fn second_on_ties() -> bool {
        false
    }

    fn key(&self) -> (r: u128) {
        self.time as u128
    }

    fn takes_second_on_ties() -> (r: bool) {
        false
    }

    fn placeholder() -> Self {
        MIDIEvent { time: 0, command: MIDIEventType::NoteOff, data: [0, 0, 0] }
    }
}

/// Whether `x` (of the first sequence) goes before `y` (of the second).
pub open spec fn goes_first<T: MergeOrder>(x: T, y: T) -> bool {
    if T::second_on_ties() { x.order_key() < y.order_key() } else { x.order_key() <= y.order_key() }
}

/// The linear two-way merge of `a` and `b`.
pub open spec fn merge_spec<T: MergeOrder>(a: Seq<T>, b: Seq<T>) -> Seq<T>
    decreases a.len() + b.len(),
{
    if a.len() == 0 {
        b
    } else if b.len() == 0 {
        a
    } else if goes_first(a[0], b[0]) {
        seq![a[0]] + merge_spec(a.drop_first(), b)
    } else {
        seq![b[0]] + merge_spec(a, b.drop_first())
    }
}

/// Non-decreasing by key.
pub open spec fn sorted_by_key<T: MergeOrder>(s: Seq<T>) -> bool {
    forall|i: int, j: int| 0 <= i <= j < s.len() ==> s[i].order_key() <= s[j].order_key()
}

/// Every element of `s` has a key of at least `lo`.
pub open spec fn all_at_least<T: MergeOrder>(s: Seq<T>, lo: int) -> bool {
    forall|i: int| 0 <= i < s.len() ==> lo <= #[trigger] s[i].order_key()
}

proof fn lemma_merge_lower<T: MergeOrder>(a: Seq<T>, b: Seq<T>, lo: int)
    requires
        all_at_least(a, lo),
        all_at_least(b, lo),
    ensures
        all_at_least(merge_spec(a, b), lo),
        merge_spec(a, b).len() == a.len() + b.len(),
    decreases a.len() + b.len(),
{
    if a.len() > 0 && b.len() > 0 {
        if goes_first(a[0], b[0]) {
            lemma_merge_lower(a.drop_first(), b, lo);
        } else {
            lemma_merge_lower(a, b.drop_first(), lo);
        }
        let m = merge_spec(a, b);
        assert forall|i: int| 0 <= i < m.len() implies lo <= #[trigger] m[i].order_key() by {
            if i > 0 {
                if goes_first(a[0], b[0]) {
                    assert(m[i] == merge_spec(a.drop_first(), b)[i - 1]);
                } else {
                    assert(m[i] == merge_spec(a, b.drop_first())[i - 1]);
                }
            }
        }
    }
}

/// A merge of two sorted sequences is sorted, and it holds exactly their elements.
pub proof fn lemma_merge_sorted<T: MergeOrder>(a: Seq<T>, b: Seq<T>)
    ensures
        sorted_by_key(a) && sorted_by_key(b) ==> sorted_by_key(merge_spec(a, b)),
        merge_spec(a, b).to_multiset() == a.to_multiset().add(b.to_multiset()),
    decreases a.len() + b.len(),
{
    let m = merge_spec(a, b);
    if a.len() == 0 {
        assert(a.to_multiset() =~= Multiset::empty()) by {
            broadcast use vstd::seq_lib::group_to_multiset_ensures;
        }
        assert(m.to_multiset() =~= a.to_multiset().add(b.to_multiset()));
    } else if b.len() == 0 {
        assert(b.to_multiset() =~= Multiset::empty()) by {
            broadcast use vstd::seq_lib::group_to_multiset_ensures;
        }
        assert(m.to_multiset() =~= a.to_multiset().add(b.to_multiset()));
    } else {
        let first = goes_first(a[0], b[0]);
        let (x, a2, b2) = if first { (a[0], a.drop_first(), b) } else { (b[0], a, b.drop_first()) };
        lemma_merge_sorted(a2, b2);
        let rest = merge_spec(a2, b2);
        assert(m == seq![x] + rest);
        lemma_multiset_commutative(seq![x], rest);
        assert(a =~= seq![a[0]] + a.drop_first());
        assert(b =~= seq![b[0]] + b.drop_first());
        lemma_multiset_commutative(seq![a[0]], a.drop_first());
        lemma_multiset_commutative(seq![b[0]], b.drop_first());
        assert(m.to_multiset() =~= a.to_multiset().add(b.to_multiset()));
        if sorted_by_key(a) && sorted_by_key(b) {
            let lo = x.order_key();
            assert(all_at_least(a2, lo)) by {
                assert forall|i: int| 0 <= i < a2.len() implies lo <= #[trigger] a2[i].order_key() by {
                    if first {
                        assert(a2[i] == a[i + 1]);
                    } else {
                        assert(a[0].order_key() <= a[i].order_key());
                    }
                }
            }
            assert(all_at_least(b2, lo)) by {
                assert forall|i: int| 0 <= i < b2.len() implies lo <= #[trigger] b2[i].order_key() by {
                    if first {
                        assert(b[0].order_key() <= b[i].order_key());
                    } else {
                        assert(b2[i] == b[i + 1]);
                    }
                }
            }
            assert(sorted_by_key(a2)) by {
                assert forall|i: int, j: int| 0 <= i <= j < a2.len() implies a2[i].order_key() <= a2[j].order_key() by {
                    if first {
                        assert(a2[i] == a[i + 1] && a2[j] == a[j + 1]);
                    }
                }
            }
            assert(sorted_by_key(b2)) by {
                assert forall|i: int, j: int| 0 <= i <= j < b2.len() implies b2[i].order_key() <= b2[j].order_key() by {
                    if !first {
                        assert(b2[i] == b[i + 1] && b2[j] == b[j + 1]);
                    }
                }
            }
            lemma_merge_lower(a2, b2, lo);
            assert forall|i: int, j: int| 0 <= i <= j < m.len() implies m[i].order_key() <= m[j].order_key() by {
                if i > 0 {
                    assert(m[i] == rest[i - 1] && m[j] == rest[j - 1]);
                } else if j > 0 {
                    assert(m[j] == rest[j - 1]);
                }
            }
        }
    }
}

/// Merges two sequences by key with a linear two-way merge.
pub fn merge_two<T: MergeOrder>(seq1: Vec<T>, seq2: Vec<T>) -> (r: Vec<T>)
    ensures
        r@ == merge_spec(seq1@, seq2@),
{
    let ghost a0 = seq1@;
    let ghost b0 = seq2@;
    let mut a = seq1;
    let mut b = seq2;
    let la = a.len();
    let lb = b.len();
    let ties = T::takes_second_on_ties();
    let mut res: Vec<T> = Vec::new();
    let mut i: usize = 0;
    let mut j: usize = 0;
    proof {
        assert(a0.subrange(0, la as int) =~= a0);
        assert(b0.subrange(0, lb as int) =~= b0);
        assert(res@ + merge_spec(a0, b0) =~= merge_spec(a0, b0));
    }
    while i < la || j < lb
        invariant
            la == a0.len(),
            lb == b0.len(),
            a@.len() == la,
            b@.len() == lb,
            i <= la,
            j <= lb,
            ties == T::second_on_ties(),
            a@.subrange(i as int, la as int) == a0.subrange(i as int, la as int),
            b@.subrange(j as int, lb as int) == b0.subrange(j as int, lb as int),
            merge_spec(a0, b0) == res@ + merge_spec(a0.subrange(i as int, la as int), b0.subrange(j as int, lb as int)),
        decreases la + lb - i - j,
    {
        let ghost ra = a0.subrange(i as int, la as int);
        let ghost rb = b0.subrange(j as int, lb as int);
        let take_first = if i == la {
            false
        } else if j == lb {
            true
        } else {
            assert(a@[i as int] == ra[0]);
            assert(b@[j as int] == rb[0]);
            let ka = a[i].key();
            let kb = b[j].key();
            if ties { ka < kb } else { ka <= kb }
        };
        if take_first {
            assert(a@[i as int] == ra[0]);
            let mut x = T::placeholder();
            std::mem::swap(&mut a[i], &mut x);
            res.push(x);
            proof {
                assert(ra.drop_first() =~= a0.subrange(i + 1, la as int));
                assert(a@.subrange(i + 1, la as int) =~= a0.subrange(i as int + 1, la as int));
            }
            i = i + 1;
            proof {
                if rb.len() == 0 {
                    assert(ra =~= seq![ra[0]] + ra.drop_first());
                }
                assert(res@ + merge_spec(a0.subrange(i as int, la as int), rb) =~= (res@.drop_last() + (seq![ra[0]] + merge_spec(ra.drop_first(), rb))));
            }
        } else {
            assert(b@[j as int] == rb[0]);
            let mut x = T::placeholder();
            std::mem::swap(&mut b[j], &mut x);
            res.push(x);
            proof {
                assert(rb.drop_first() =~= b0.subrange(j + 1, lb as int));
                assert(b@.subrange(j + 1, lb as int) =~= b0.subrange(j as int + 1, lb as int));
            }
            j = j + 1;
            proof {
                if ra.len() == 0 {
                    assert(rb =~= seq![rb[0]] + rb.drop_first());
                }
                assert(res@ + merge_spec(ra, b0.subrange(j as int, lb as int)) =~= (res@.drop_last() + (seq![rb[0]] + merge_spec(ra, rb.drop_first()))));
            }
        }
    }
    proof {
        assert(a0.subrange(la as int, la as int) =~= Seq::<T>::empty());
        assert(b0.subrange(lb as int, lb as int) =~= Seq::<T>::empty());
        assert(res@ + Seq::<T>::empty() =~= res@);
    }
    res
}


/// What the lists hold together, counted with multiplicity.
pub open spec fn flatten_ms<T>(s: Seq<Seq<T>>) -> Multiset<T>
    decreases s.len(),
{
    if s.len() == 0 {
        Multiset::empty()
    } else {
        s[0].to_multiset().add(flatten_ms(s.drop_first()))
    }
}

pub open spec fn views<T>(s: Seq<Vec<T>>) -> Seq<Seq<T>> {
    s.map_values(|v: Vec<T>| v@)
}

/// Every list is sorted by key.
pub open spec fn all_sorted<T: MergeOrder>(s: Seq<Seq<T>>) -> bool {
    forall|i: int| 0 <= i < s.len() ==> sorted_by_key(#[trigger] s[i])
}

proof fn lemma_flatten_push<T>(s: Seq<Seq<T>>, x: Seq<T>)
    ensures
        flatten_ms(s.push(x)) == flatten_ms(s).add(x.to_multiset()),
    decreases s.len(),
{
    if s.len() == 0 {
        assert(s.push(x).drop_first() =~= Seq::<Seq<T>>::empty());
        assert(flatten_ms(s.push(x).drop_first()) == Multiset::<T>::empty());
        assert(s.push(x)[0] == x);
        assert(flatten_ms(s.push(x)) =~= flatten_ms(s).add(x.to_multiset()));
    } else {
        lemma_flatten_push(s.drop_first(), x);
        assert(s.push(x).drop_first() =~= s.drop_first().push(x));
        assert(flatten_ms(s.push(x)) =~= flatten_ms(s).add(x.to_multiset()));
    }
}

/// Whatever the lists hold together stands in one of them.
pub proof fn lemma_flatten_member<T>(s: Seq<Seq<T>>, x: T)
    requires
        flatten_ms(s).count(x) > 0,
    ensures
        exists|i: int, j: int| 0 <= i < s.len() && 0 <= j < s[i].len() && s[i][j] == x,
    decreases s.len(),
{
    if s.len() > 0 {
        if s[0].to_multiset().count(x) > 0 {
            broadcast use vstd::seq_lib::group_to_multiset_ensures;
            assert(s[0].contains(x));
            let j = choose|j: int| 0 <= j < s[0].len() && s[0][j] == x;
            assert(0 <= 0 < s.len() && 0 <= j < s[0].len() && s[0][j] == x);
        } else {
            lemma_flatten_member(s.drop_first(), x);
            let (i, j) = choose|i: int, j: int| 0 <= i < s.drop_first().len() && 0 <= j < s.drop_first()[i].len() && s.drop_first()[i][j] == x;
            assert(s[i + 1][j] == x);
        }
    }
}

/// One round of the pairwise merge: the first and second lists merged, the
/// third and fourth, and so on; an odd last list passes as it is.
pub open spec fn pair_round<T: MergeOrder>(s: Seq<Seq<T>>) -> Seq<Seq<T>>
    decreases s.len(),
{
    if s.len() <= 1 {
        s
    } else {
        seq![merge_spec(s[0], s[1])] + pair_round(s.subrange(2, s.len() as int))
    }
}

/// Rounds of pairwise merges until one list remains (none for no lists).
pub open spec fn merge_all_spec<T: MergeOrder>(s: Seq<Seq<T>>) -> Seq<T>
    decreases s.len(),
{
    if s.len() == 0 {
        Seq::empty()
    } else if s.len() == 1 {
        s[0]
    } else if pair_round(s).len() < s.len() {
        merge_all_spec(pair_round(s))
    } else {
        Seq::empty()
    }
}

/// Merges K sequences by pairing them up and merging each pair, round after
/// round, until one remains. On equal keys the tie rule of the two-way merge
/// decides at every round, so the result is exactly `merge_all_spec`.
pub fn merge_all<T: MergeOrder>(seq: Vec<Vec<T>>) -> (r: Vec<T>)
    ensures
        r@ == merge_all_spec(views(seq@)),
        r@.to_multiset() == flatten_ms(views(seq@)),
        all_sorted(views(seq@)) ==> sorted_by_key(r@),
{
    let ghost total = flatten_ms(views(seq@));
    let ghost srt = all_sorted(views(seq@));
    let mut b1 = seq;
    if b1.len() == 0 {
        proof {
            assert(Seq::<T>::empty().to_multiset() =~= Multiset::empty()) by {
                broadcast use vstd::seq_lib::group_to_multiset_ensures;
            }
        }
        return Vec::new();
    }
    let ghost whole = merge_all_spec(views(seq@));
    proof {
        assert(views(b1@) == views(seq@));
    }
    while b1.len() > 1
        invariant
            b1@.len() >= 1,
            merge_all_spec(views(b1@)) == whole,
            flatten_ms(views(b1@)) == total,
            srt ==> all_sorted(views(b1@)),
        decreases b1@.len(),
    {
        let ghost n0 = b1@.len();
        let ghost v0 = views(b1@);
        let mut b2: Vec<Vec<T>> = Vec::new();
        proof {
            assert(flatten_ms(views(b2@)) =~= Multiset::empty());
            assert(views(b2@) + pair_round(v0) =~= pair_round(v0));
        }
        while b1.len() > 0
            invariant
                b1@.len() + 2 * b2@.len() == n0 || (b1@.len() == 0 && 2 * b2@.len() == n0 + 1),
                pair_round(v0) == views(b2@) + pair_round(views(b1@)),
                flatten_ms(views(b2@)).add(flatten_ms(views(b1@))) == total,
                srt ==> all_sorted(views(b1@)) && all_sorted(views(b2@)),
            decreases b1@.len(),
        {
            let ghost v1 = views(b1@);
            let ghost v2 = views(b2@);
            let x = b1.remove(0);
            proof {
                assert(views(b1@) =~= v1.drop_first());
                assert(x@ == v1[0]);
                assert(flatten_ms(v1) == x@.to_multiset().add(flatten_ms(views(b1@))));
            }
            if b1.len() == 0 {
                b2.push(x);
                proof {
                    assert(views(b2@) =~= v2.push(x@));
                    assert(v1 =~= seq![x@]);
                    assert(pair_round(views(b1@)) =~= Seq::<Seq<T>>::empty());
                    assert(views(b2@) + pair_round(views(b1@)) =~= v2 + pair_round(v1));
                    lemma_flatten_push(v2, x@);
                    assert(flatten_ms(views(b1@)) =~= Multiset::empty());
                    if srt {
                        assert(sorted_by_key(v1[0]));
                    }
                }
            } else {
                let ghost v1b = views(b1@);
                let y = b1.remove(0);
                proof {
                    assert(views(b1@) =~= v1b.drop_first());
                    assert(y@ == v1b[0]);
                    assert(flatten_ms(v1b) == y@.to_multiset().add(flatten_ms(views(b1@))));
                    lemma_merge_sorted(x@, y@);
                }
                let ghost xv = x@;
                let ghost yv = y@;
                let m = merge_two(x, y);
                b2.push(m);
                proof {
                    assert(views(b2@) =~= v2.push(m@));
                    assert(v1[1] == yv);
                    assert(views(b1@) =~= v1.subrange(2, v1.len() as int));
                    assert(pair_round(v1) == seq![merge_spec(xv, yv)] + pair_round(views(b1@)));
                    assert(views(b2@) + pair_round(views(b1@)) =~= v2 + pair_round(v1));
                    lemma_flatten_push(v2, m@);
                    assert(m@.to_multiset() == xv.to_multiset().add(yv.to_multiset()));
                    assert(flatten_ms(views(b2@)).add(flatten_ms(views(b1@))) =~= total);
                    if srt {
                        assert(sorted_by_key(v1[0]));
                        assert(sorted_by_key(v1b[0]));
                        assert forall|i: int| 0 <= i < views(b1@).len() implies sorted_by_key(#[trigger] views(b1@)[i]) by {
                            assert(views(b1@)[i] == v1b[i + 1]);
                            assert(v1b[i + 1] == v1[i + 2]);
                        }
                    }
                }
            }
            proof {
                if srt {
                    assert forall|i: int| 0 <= i < views(b2@).len() implies sorted_by_key(#[trigger] views(b2@)[i]) by {
                        if i < v2.len() {
                            assert(views(b2@)[i] == v2[i]);
                        }
                    }
                }
            }
        }
        proof {
            assert(flatten_ms(views(b1@)) =~= Multiset::empty());
            assert(flatten_ms(views(b2@)).add(Multiset::empty()) =~= flatten_ms(views(b2@)));
            assert(pair_round(views(b1@)) =~= Seq::<Seq<T>>::empty());
            assert(views(b2@) =~= pair_round(v0));
            assert(merge_all_spec(v0) == merge_all_spec(pair_round(v0)));
        }
        b1 = b2;
    }
    let ghost v = views(b1@);
    let r = b1.remove(0);
    proof {
        assert(v.drop_first() =~= Seq::<Seq<T>>::empty());
        assert(flatten_ms(v.drop_first()) == Multiset::<T>::empty());
        assert(flatten_ms(v) =~= r@.to_multiset());
        assert(merge_all_spec(v) == v[0]);
        if srt {
            assert(sorted_by_key(v[0]));
        }
    }
    r
}

/// Merges two note sequences by start time, then track index.
pub fn merge_two_note_seqs(seq1: Vec<Note>, seq2: Vec<Note>) -> (r: Vec<Note>)
    ensures
        r@ == merge_spec(seq1@, seq2@),
        r@.to_multiset() == seq1@.to_multiset().add(seq2@.to_multiset()),
        sorted_by_key(seq1@) && sorted_by_key(seq2@) ==> sorted_by_key(r@),
{
    proof {
        lemma_merge_sorted(seq1@, seq2@);
    }
    merge_two(seq1, seq2)
}

/// Merges per-track note sequences into one, by start time then track index.
pub fn merge_notes(seq: Vec<Vec<Note>>) -> (r: Vec<Note>)
    ensures
        r@ == merge_all_spec(views(seq@)),
        r@.to_multiset() == flatten_ms(views(seq@)),
        all_sorted(views(seq@)) ==> sorted_by_key(r@),
{
    merge_all(seq)
}

/// Merges two tempo maps by tick.
pub fn merge_two_tempo_seqs(seq1: Vec<TempoEvent>, seq2: Vec<TempoEvent>) -> (r: Vec<TempoEvent>)
    ensures
        r@ == merge_spec(seq1@, seq2@),
        r@.to_multiset() == seq1@.to_multiset().add(seq2@.to_multiset()),
        sorted_by_key(seq1@) && sorted_by_key(seq2@) ==> sorted_by_key(r@),
{
    proof {
        lemma_merge_sorted(seq1@, seq2@);
    }
    merge_two(seq1, seq2)
}

/// Merges per-track tempo maps into one, by tick.
pub fn merge_tempo_evs(seq: Vec<Vec<TempoEvent>>) -> (r: Vec<TempoEvent>)
    ensures
        r@ == merge_all_spec(views(seq@)),
        r@.to_multiset() == flatten_ms(views(seq@)),
        all_sorted(views(seq@)) ==> sorted_by_key(r@),
{
    merge_all(seq)
}

/// Merges two event streams by time; on equal times the first stream's event goes first.
pub fn merge_two_seqs(seq1: Vec<MIDIEvent>, seq2: Vec<MIDIEvent>) -> (r: Vec<MIDIEvent>)
    ensures
        r@ == merge_spec(seq1@, seq2@),
        r@.to_multiset() == seq1@.to_multiset().add(seq2@.to_multiset()),
        sorted_by_key(seq1@) && sorted_by_key(seq2@) ==> sorted_by_key(r@),
{
    proof {
        lemma_merge_sorted(seq1@, seq2@);
    }
    merge_two(seq1, seq2)
}

/// Merges per-track event streams into one, by time.
pub fn merge_midi_events(seq: Vec<Vec<MIDIEvent>>) -> (r: Vec<MIDIEvent>)
    ensures
        r@ == merge_all_spec(views(seq@)),
        r@.to_multiset() == flatten_ms(views(seq@)),
        all_sorted(views(seq@)) ==> sorted_by_key(r@),
{
    merge_all(seq)
}

} // verus!
