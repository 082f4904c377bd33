//! Consumer watermarks: how far each consumer of a shard has read.

use vstd::prelude::*;

use crate::ids::SequenceNumber;

verus! {

/// The position of `name` in a list of named positions, if it is there.
pub open spec fn watermark_index(s: Seq<(Seq<char>, u64)>, name: Seq<char>) -> Option<int>
    decreases s.len(),
{
    if s.len() == 0 {
        None
    } else {
        match watermark_index(s.drop_last(), name) {
            Some(i) => Some(i),
            None => if s.last().0 == name {
                Some(s.len() - 1)
            } else {
                None
            },
        }
    }
}

/// The list after `name` registered at `position`: a known name is moved there,
/// a new one is added at the end.
pub open spec fn watermarks_registered(
    s: Seq<(Seq<char>, u64)>,
    name: Seq<char>,
    position: u64,
) -> Seq<(Seq<char>, u64)> {
    match watermark_index(s, name) {
        Some(i) => s.update(i, (name, position)),
        None => s.push((name, position)),
    }
}

/// The list after `name` advanced to `position`: a known name only moves
/// forward, a new one is added at the end.
pub open spec fn watermarks_advanced(
    s: Seq<(Seq<char>, u64)>,
    name: Seq<char>,
    position: u64,
) -> Seq<(Seq<char>, u64)> {
    match watermark_index(s, name) {
        Some(i) => if s[i].1 < position {
            s.update(i, (name, position))
        } else {
            s
        },
        None => s.push((name, position)),
    }
}

/// The lowest position of a list; none where it is empty.
pub open spec fn lowest_position(s: Seq<(Seq<char>, u64)>) -> Option<u64>
    decreases s.len(),
{
    if s.len() == 0 {
        None
    } else {
        match lowest_position(s.drop_last()) {
            Some(p) => if s.last().1 < p {
                Some(s.last().1)
            } else {
                Some(p)
            },
            None => Some(s.last().1),
        }
    }
}

/// The index found holds the name, and nothing before it does.
pub proof fn lemma_watermark_index(s: Seq<(Seq<char>, u64)>, name: Seq<char>)
    ensures
        match watermark_index(s, name) {
            Some(i) => 0 <= i < s.len() && s[i].0 == name && (forall|j: int|
                0 <= j < i ==> (#[trigger] s[j]).0 != name),
            None => forall|j: int| 0 <= j < s.len() ==> (#[trigger] s[j]).0 != name,
        },
    decreases s.len(),
{
    if s.len() > 0 {
        let t = s.drop_last();
        lemma_watermark_index(t, name);
        match watermark_index(t, name) {
            Some(i) => {
                assert(s[i] == t[i]);
                assert forall|j: int| 0 <= j < i implies (#[trigger] s[j]).0 != name by {
                    assert(s[j] == t[j]);
                }
            },
            None => {
                assert forall|j: int| 0 <= j < t.len() implies (#[trigger] s[j]).0 != name by {
                    assert(s[j] == t[j]);
                }
            },
        }
    }
}

/// Law: the garbage-collection boundary is a position of some consumer, and no
/// consumer is behind it; without consumers there is none.
pub proof fn lowest_position_is_minimum(s: Seq<(Seq<char>, u64)>)
    ensures
        match lowest_position(s) {
            Some(p) => (exists|i: int| 0 <= i < s.len() && (#[trigger] s[i]).1 == p) && (forall|
                i: int,
            |
                0 <= i < s.len() ==> p <= (#[trigger] s[i]).1),
            None => s.len() == 0,
        },
    decreases s.len(),
{
    if s.len() > 0 {
        let t = s.drop_last();
        lowest_position_is_minimum(t);
        match lowest_position(t) {
            Some(q) => {
                let k = choose|i: int| 0 <= i < t.len() && (#[trigger] t[i]).1 == q;
                assert(s[k] == t[k]);
                assert(s[s.len() - 1] == s.last());
                assert forall|i: int| 0 <= i < s.len() implies lowest_position(s)->0 <= (
                #[trigger] s[i]).1 by {
                    if i < t.len() {
                        assert(s[i] == t[i]);
                    }
                }
            },
            None => {
                assert(s[0] == s.last());
            },
        }
    }
}

/// Watermarks of the consumers of one shard, in the order in which they came.
pub struct ConsumerWatermarks {
    positions: Vec<(String, u64)>,
}

impl View for ConsumerWatermarks {
    type V = Seq<(Seq<char>, u64)>;

    closed spec fn view(&self) -> Seq<(Seq<char>, u64)> {
        Seq::new(self.positions@.len(), |i: int| (self.positions@[i].0@, self.positions@[i].1))
    }
}

impl ConsumerWatermarks {
    /// No consumers.
    pub fn new() -> (r: Self)
        ensures
            r@ == Seq::<(Seq<char>, u64)>::empty(),
    {
        let r = ConsumerWatermarks { positions: Vec::new() };
        assert(r@ =~= Seq::<(Seq<char>, u64)>::empty());
        r
    }

    /// Position of a consumer in the list.
    fn find(&self, name: &str) -> (r: Option<usize>)
        ensures
            match r {
                Some(i) => watermark_index(self@, name@) == Some(i as int) && i
                    < self.positions@.len(),
                None => watermark_index(self@, name@) is None,
            },
    {
        let mut i: usize = 0;
        while i < self.positions.len()
            invariant
                i <= self.positions@.len(),
                forall|j: int| 0 <= j < i ==> (#[trigger] self@[j]).0 != name@,
            decreases self.positions@.len() - i,
        {
            assert(self@[i as int].0 == self.positions@[i as int].0@);
            if same_text(self.positions[i].0.as_str(), name) {
                proof {
                    lemma_watermark_index(self@, name@);
                    match watermark_index(self@, name@) {
                        Some(k) => {
                            if k < i {
                                assert(self@[k].0 != name@);
                            }
                            if i < k {
                                assert(self@[i as int].0 != name@);
                            }
                        },
                        None => {},
                    }
                }
                return Some(i);
            }
            i = i + 1;
        }
        proof {
            lemma_watermark_index(self@, name@);
            match watermark_index(self@, name@) {
                Some(k) => {
                    assert(self@[k].0 != name@);
                },
                None => {},
            }
        }
        None
    }

    /// Registers a consumer at a position.
    pub fn register(&mut self, consumer: &str, position: SequenceNumber)
        ensures
            final(self)@ == watermarks_registered(old(self)@, consumer@, position.0),
    {
        let ghost before = self@;
        match self.find(consumer) {
            Some(i) => {
                self.positions[i] = (consumer.to_owned(), position.0);
                assert(self@ =~= before.update(i as int, (consumer@, position.0)));
            },
            None => {
                self.positions.push((consumer.to_owned(), position.0));
                assert(self@ =~= before.push((consumer@, position.0)));
            },
        }
    }

    /// Advances a consumer; one that is not known yet is registered.
    pub fn advance(&mut self, consumer: &str, position: SequenceNumber)
        ensures
            final(self)@ == watermarks_advanced(old(self)@, consumer@, position.0),
    {
        let ghost before = self@;
        match self.find(consumer) {
            Some(i) => {
                if self.positions[i].1 < position.0 {
                    self.positions[i] = (consumer.to_owned(), position.0);
                    assert(self@ =~= before.update(i as int, (consumer@, position.0)));
                }
            },
            None => {
                self.positions.push((consumer.to_owned(), position.0));
                assert(self@ =~= before.push((consumer@, position.0)));
            },
        }
    }

    /// The position below which no consumer will read again.
    pub fn gc_boundary(&self) -> (r: Option<SequenceNumber>)
        ensures
            match lowest_position(self@) {
                Some(p) => r == Some(SequenceNumber(p)),
                None => r is None,
            },
    {
        let mut best: Option<SequenceNumber> = None;
        let mut i: usize = 0;
        assert(self@.take(0) =~= Seq::<(Seq<char>, u64)>::empty());
        while i < self.positions.len()
            invariant
                i <= self.positions@.len(),
                match lowest_position(self@.take(i as int)) {
                    Some(p) => best == Some(SequenceNumber(p)),
                    None => best is None,
                },
            decreases self.positions@.len() - i,
        {
            let p: u64 = self.positions[i].1;
            proof {
                let t = self@.take(i + 1);
                assert(t.drop_last() =~= self@.take(i as int));
                assert(t.last().1 == p);
            }
            best = match best {
                Some(b) => if p < b.0 {
                    Some(SequenceNumber(p))
                } else {
                    Some(b)
                },
                None => Some(SequenceNumber(p)),
            };
            i = i + 1;
        }
        assert(self@.take(i as int) =~= self@);
        best
    }

    /// Names and positions, in the order in which the consumers came.
    pub fn as_vec(&self) -> (r: Vec<(String, u64)>)
        ensures
            r@.len() == self@.len(),
            forall|i: int| 0 <= i < r@.len() ==> (#[trigger] r@[i]).0@ == self@[i].0 && r@[i].1
                == self@[i].1,
    {
        let mut out: Vec<(String, u64)> = Vec::new();
        let mut i: usize = 0;
        while i < self.positions.len()
            invariant
                i <= self.positions@.len(),
                out@.len() == i,
                forall|j: int| 0 <= j < i ==> (#[trigger] out@[j]).0@ == self@[j].0 && out@[j].1
                    == self@[j].1,
            decreases self.positions@.len() - i,
        {
            out.push((self.positions[i].0.clone(), self.positions[i].1));
            i = i + 1;
        }
        out
    }
}

/// Two strings have the same characters.
pub fn same_text(a: &str, b: &str) -> (r: bool)
    ensures
        r == (a@ == b@),
{
    a.to_owned() == b.to_owned()
}

/// Law: advancing a consumer never moves any consumer backwards.
pub proof fn advance_is_monotone(
    s: Seq<(Seq<char>, u64)>,
    name: Seq<char>,
    position: u64,
)
    ensures
        watermarks_advanced(s, name, position).len() >= s.len(),
        forall|i: int| 0 <= i < s.len() ==> (#[trigger] s[i]).0 == watermarks_advanced(
            s,
            name,
            position,
        )[i].0 && s[i].1 <= watermarks_advanced(s, name, position)[i].1,
{
    lemma_watermark_index(s, name);
}

/// No two consumers share a name.
pub open spec fn names_distinct(s: Seq<(Seq<char>, u64)>) -> bool {
    forall|i: int, j: int| 0 <= i < j < s.len() ==> (#[trigger] s[i]).0 != (#[trigger] s[j]).0
}

/// Law: registering or advancing a consumer keeps the names distinct.
pub proof fn consumers_stay_distinct(s: Seq<(Seq<char>, u64)>, name: Seq<char>, position: u64)
    requires
        names_distinct(s),
    ensures
        names_distinct(watermarks_registered(s, name, position)),
        names_distinct(watermarks_advanced(s, name, position)),
{
    lemma_watermark_index(s, name);
}

/// Law: a consumer that is registered stands at its position, and one that advances does
/// not go back: it stands at the later of the two. A new consumer is added at the end;
/// no other consumer moves.
pub proof fn consumer_stands_where_it_was_put(
    s: Seq<(Seq<char>, u64)>,
    name: Seq<char>,
    position: u64,
    i: int,
)
    requires
        names_distinct(s),
    ensures
        ({
            let put = watermarks_registered(s, name, position);
            let moved = watermarks_advanced(s, name, position);
            let known = exists|j: int| 0 <= j < s.len() && (#[trigger] s[j]).0 == name;
            &&& !known ==> put == s.push((name, position)) && moved == s.push((name, position))
            &&& known ==> put.len() == s.len() && moved.len() == s.len()
            &&& 0 <= i < s.len() && s[i].0 != name ==> put[i] == s[i] && moved[i] == s[i]
            &&& 0 <= i < s.len() && s[i].0 == name ==> {
                &&& put[i].0 == name && put[i].1 == position
                &&& moved[i].0 == name
                &&& moved[i].1 >= position && moved[i].1 >= s[i].1
                &&& moved[i].1 == position || moved[i].1 == s[i].1
            }
        }),
{
    lemma_watermark_index(s, name);
    if 0 <= i < s.len() && s[i].0 == name {
        let k = watermark_index(s, name)->0;
        assert(watermark_index(s, name) is Some);
        if k < i {
            assert(s[k].0 != s[i].0);
        }
    }
}

} // verus!
