use crate::text::str_eq;
use vstd::prelude::*;

verus! {

/// Position of the first entry of `labels` equal to `s`, or -1 if there is
/// none.
pub open spec fn first_index_of(labels: Seq<Seq<char>>, s: Seq<char>) -> int
    decreases labels.len(),
{
    if labels.len() == 0 {
        -1
    } else if labels[0] == s {
        0
    } else {
        let r = first_index_of(labels.drop_first(), s);
        if r < 0 {
            -1
        } else {
            r + 1
        }
    }
}

pub proof fn lemma_first_index_of(labels: Seq<Seq<char>>, s: Seq<char>)
    ensures
        first_index_of(labels, s) >= 0 ==> {
            let r = first_index_of(labels, s);
            &&& r < labels.len()
            &&& labels[r] == s
            &&& forall|k: int| 0 <= k < r ==> labels[k] != s
        },
        first_index_of(labels, s) < 0 ==> forall|k: int| 0 <= k < labels.len() ==> labels[k] != s,
    decreases labels.len(),
{
    if labels.len() > 0 && labels[0] != s {
        lemma_first_index_of(labels.drop_first(), s);
        let r = first_index_of(labels.drop_first(), s);
        if r >= 0 {
            assert forall|k: int| 0 <= k < r + 1 implies labels[k] != s by {
                if k > 0 {
                    assert(labels.drop_first()[k - 1] != s);
                }
            }
        } else {
            assert forall|k: int| 0 <= k < labels.len() implies labels[k] != s by {
                if k > 0 {
                    assert(labels.drop_first()[k - 1] != s);
                }
            }
        }
    }
}

/// Parallel ordered label and value sequences: `values[i]` is the count for
/// `labels[i]`.
pub struct Chart {
    pub labels: Vec<String>,
    pub values: Vec<u64>,
}

impl Chart {
    /// The labels as character sequences.
    pub open spec fn labels_view(&self) -> Seq<Seq<char>> {
        self.labels.deep_view()
    }

    pub open spec fn values_view(&self) -> Seq<u64> {
        self.values@
    }

    /// As many values as labels, and no label repeats.
    pub open spec fn wf(&self) -> bool {
        &&& self.labels@.len() == self.values@.len()
        &&& forall|i: int, j: int|
            0 <= i < j < self.labels@.len() ==> #[trigger] self.labels.deep_view()[i]
                != #[trigger] self.labels.deep_view()[j]
    }

    /// An empty chart.
    pub fn empty() -> (c: Chart)
        ensures
            c.wf(),
            c.labels_view() =~= Seq::<Seq<char>>::empty(),
            c.values_view() =~= Seq::<u64>::empty(),
    {
        Chart { labels: Vec::new(), values: Vec::new() }
    }

    /// A chart from a list of label/value pairs whose labels are distinct.
    pub fn new(data: Vec<(String, u64)>) -> (c: Chart)
        requires
            forall|i: int, j: int|
                0 <= i < j < data@.len() ==> #[trigger] data@[i].0@ != #[trigger] data@[j].0@,
        ensures
            c.wf(),
            c.labels_view() =~= data@.map_values(|p: (String, u64)| p.0@),
            c.values_view() =~= data@.map_values(|p: (String, u64)| p.1),
    {
        let mut labels: Vec<String> = Vec::new();
        let mut values: Vec<u64> = Vec::new();
        let n = data.len();
        let mut k: usize = 0;
        for k in 0..n
            invariant
                n == data@.len(),
                labels@.len() == k,
                values@.len() == k,
                forall|i: int, j: int|
                    0 <= i < j < data@.len() ==> #[trigger] data@[i].0@ != #[trigger] data@[j].0@,
                forall|i: int| 0 <= i < k ==> (#[trigger] labels@[i])@ == data@[i].0@,
                forall|i: int| 0 <= i < k ==> #[trigger] values@[i] == data@[i].1,
        {
            let s = data[k].0.clone();
            let v = data[k].1;
            labels.push(s);
            values.push(v);
        }
        let c = Chart { labels, values };
        proof {
            assert forall|i: int| 0 <= i < c.labels@.len() implies #[trigger] c.labels.deep_view()[i]
                == data@[i].0@ by {
                assert(c.labels.deep_view()[i] == c.labels@[i]@);
            }
            assert forall|i: int, j: int|
                0 <= i < j < c.labels@.len() implies #[trigger] c.labels.deep_view()[i]
                != #[trigger] c.labels.deep_view()[j] by {
                assert(c.labels.deep_view()[i] == data@[i].0@);
                assert(c.labels.deep_view()[j] == data@[j].0@);
            }
            assert(c.labels_view() =~~= data@.map_values(|p: (String, u64)| p.0@));
            assert(c.values_view() =~= data@.map_values(|p: (String, u64)| p.1));
        }
        c
    }

    pub fn len(&self) -> (n: usize)
        ensures
            n == self.labels_view().len(),
    {
        self.labels.len()
    }

    /// Adds `amount` to the value of label `s`, appending the label with
    /// that starting value if it is new.
    pub fn inc_by(&mut self, s: String, amount: u64)
        requires
            old(self).wf(),
            forall|i: int|
                0 <= i < old(self).values@.len() ==> #[trigger] old(self).values@[i] + amount
                    <= u64::MAX,
        ensures
            final(self).wf(),
            first_index_of(old(self).labels_view(), s@) >= 0 ==> {
                let j = first_index_of(old(self).labels_view(), s@);
                &&& final(self).labels_view() == old(self).labels_view()
                &&& final(self).values_view() == old(self).values_view().update(
                    j,
                    (old(self).values_view()[j] + amount) as u64,
                )
            },
            first_index_of(old(self).labels_view(), s@) < 0 ==> {
                &&& final(self).labels_view() == old(self).labels_view().push(s@)
                &&& final(self).values_view() == old(self).values_view().push(amount)
            },
    {
        proof {
            lemma_first_index_of(old(self).labels_view(), s@);
        }
        let n = self.labels.len();
        let mut i: usize = 0;
        while i < n
            invariant
                *self == *old(self),
                old(self).wf(),
                forall|k: int|
                    0 <= k < old(self).values@.len() ==> #[trigger] old(self).values@[k] + amount
                        <= u64::MAX,
                n == self.labels@.len(),
                0 <= i <= n,
                forall|k: int| 0 <= k < i ==> (#[trigger] self.labels@[k])@ != s@,
            decreases n - i,
        {
            if str_eq(self.labels[i].as_str(), s.as_str()) {
                proof {
                    let ls = old(self).labels_view();
                    lemma_first_index_of(ls, s@);
                    let r = first_index_of(ls, s@);
                    assert(ls[i as int] == self.labels@[i as int]@);
                    assert(ls[i as int] == s@);
                    assert(r >= 0);
                    assert forall|k: int| 0 <= k < i implies ls[k] != s@ by {
                        assert(ls[k] == self.labels@[k]@);
                    }
                    assert(r == i);
                }
                let v = self.values[i];
                self.values[i] = v + amount;
                proof {
                    assert(final(self).labels_view() =~~= old(self).labels_view());
                }
                return ;
            }
            i += 1;
        }
        proof {
            let ls = old(self).labels_view();
            lemma_first_index_of(ls, s@);
            if first_index_of(ls, s@) >= 0 {
                let r = first_index_of(ls, s@);
                assert(ls[r] == s@);
                assert(ls[r] == self.labels@[r]@);
                assert(false);
            }
        }
        let ghost prev: Seq<String> = self.labels@;
        self.labels.push(s);
        self.values.push(amount);
        proof {
            assert(final(self).labels_view() =~~= old(self).labels_view().push(s@)) by {
                assert forall|k: int| 0 <= k < self.labels@.len() implies self.labels.deep_view()[k]
                    == old(self).labels_view().push(s@)[k] by {
                    if k < prev.len() {
                        assert(self.labels@[k] == prev[k]);
                    }
                }
            }
            assert(final(self).values_view() =~= old(self).values_view().push(amount));
            assert forall|i2: int, j2: int|
                0 <= i2 < j2 < self.labels@.len() implies #[trigger] self.labels.deep_view()[i2]
                != #[trigger] self.labels.deep_view()[j2] by {
                let ls = old(self).labels_view();
                lemma_first_index_of(ls, s@);
                if j2 == self.labels@.len() - 1 {
                    assert(self.labels.deep_view()[i2] == ls[i2]);
                    assert(self.labels.deep_view()[j2] == s@);
                } else {
                    assert(self.labels.deep_view()[i2] == ls[i2]);
                    assert(self.labels.deep_view()[j2] == ls[j2]);
                }
            }
        }
    }

    /// Adds one death for label `s`.
    pub fn inc(&mut self, s: String)
        requires
            old(self).wf(),
            forall|i: int|
                0 <= i < old(self).values@.len() ==> #[trigger] old(self).values@[i] + 1
                    <= u64::MAX,
        ensures
            final(self).wf(),
            first_index_of(old(self).labels_view(), s@) >= 0 ==> {
                let j = first_index_of(old(self).labels_view(), s@);
                &&& final(self).labels_view() == old(self).labels_view()
                &&& final(self).values_view() == old(self).values_view().update(
                    j,
                    (old(self).values_view()[j] + 1) as u64,
                )
            },
            first_index_of(old(self).labels_view(), s@) < 0 ==> {
                &&& final(self).labels_view() == old(self).labels_view().push(s@)
                &&& final(self).values_view() == old(self).values_view().push(1u64)
            },
    {
        self.inc_by(s, 1);
    }

    /// Appends a fresh label with the value zero.
    pub fn add_0(&mut self, s: String)
        requires
            old(self).wf(),
            forall|k: int|
                0 <= k < old(self).labels_view().len() ==> #[trigger] old(self).labels_view()[k]
                    != s@,
        ensures
            final(self).wf(),
            final(self).labels_view() == old(self).labels_view().push(s@),
            final(self).values_view() == old(self).values_view().push(0u64),
    {
        let ghost prev: Seq<String> = self.labels@;
        self.labels.push(s);
        self.values.push(0);
        proof {
            assert(final(self).labels_view() =~~= old(self).labels_view().push(s@)) by {
                assert forall|k: int| 0 <= k < self.labels@.len() implies self.labels.deep_view()[k]
                    == old(self).labels_view().push(s@)[k] by {
                    if k < prev.len() {
                        assert(self.labels@[k] == prev[k]);
                    }
                }
            }
            assert(final(self).values_view() =~= old(self).values_view().push(0u64));
        }
    }
}

impl Default for Chart {
    /// An empty chart.
    fn default() -> (c: Chart)
        ensures
            c.wf(),
            c.labels_view() =~= Seq::<Seq<char>>::empty(),
            c.values_view() =~= Seq::<u64>::empty(),
    {
        Chart { labels: Vec::new(), values: Vec::new() }
    }
}

/// The aggregated statistics of one account.
pub struct Player {
    pub name: String,
    pub total_deaths: u64,
    pub exclusive_deaths: Vec<String>,
    pub unique_deaths: Chart,
    pub deaths_over_time: Chart,
}

impl Player {
    /// A player with no recorded deaths yet.
    pub fn new(name: String) -> (p: Player)
        ensures
            p.name@ == name@,
            p.total_deaths == 0,
            p.exclusive_deaths@.len() == 0,
            p.unique_deaths.labels_view() =~= Seq::<Seq<char>>::empty(),
            p.unique_deaths.values_view() =~= Seq::<u64>::empty(),
            p.deaths_over_time.labels_view() =~= Seq::<Seq<char>>::empty(),
            p.deaths_over_time.values_view() =~= Seq::<u64>::empty(),
            p.unique_deaths.wf(),
            p.deaths_over_time.wf(),
    {
        Player {
            name,
            total_deaths: 0,
            exclusive_deaths: Vec::new(),
            unique_deaths: Chart::empty(),
            deaths_over_time: Chart::empty(),
        }
    }
}

} // verus!
