//! Messages: finite mappings from domain values to probabilities.
//!
//! A [`Message`] is a sequence of `(value, probability)` entries with unique
//! keys, in insertion order. Normalization is max-scaling: every entry is
//! divided by the largest entry, so the largest entry becomes exactly
//! [`PROB_ONE`](crate::prob::PROB_ONE). The rule is monotone and keeps the
//! argmax, and it is the one rescaling rule of the crate.

use vstd::prelude::*;

use crate::bperror::{BPError, BPResult, ErrorKind};
use crate::prob::{p_mul, p_mul_spec, p_scale, p_scale_spec, Probability, PROB_ONE};

verus! {

/// The first probability mapped to `key` in `s`, if any.
pub open spec fn spec_get(s: Seq<(i64, u64)>, key: i64) -> Option<u64>
    decreases s.len(),
{
    if s.len() == 0 {
        None
    } else if s[0].0 == key {
        Some(s[0].1)
    } else {
        spec_get(s.skip(1), key)
    }
}

/// Whether `s` maps `key` to some probability.
pub open spec fn spec_has(s: Seq<(i64, u64)>, key: i64) -> bool {
    spec_get(s, key) is Some
}

/// No two entries of `s` share a key.
pub open spec fn keys_unique(s: Seq<(i64, u64)>) -> bool {
    forall|i: int, j: int| 0 <= i < j < s.len() ==> s[i].0 != s[j].0
}

/// The largest probability in `s`, or 0 when `s` is empty.
pub open spec fn max_val(s: Seq<(i64, u64)>) -> u64
    decreases s.len(),
{
    if s.len() == 0 {
        0u64
    } else {
        let m = max_val(s.skip(1));
        if s[0].1 >= m {
            s[0].1
        } else {
            m
        }
    }
}

/// `s` after max-scaling: every entry divided by the largest.
pub open spec fn norm_seq(s: Seq<(i64, u64)>) -> Seq<(i64, u64)> {
    s.map_values(|kv: (i64, u64)| (kv.0, p_scale_spec(kv.1, max_val(s))))
}

/// `a` multiplied pointwise by `b` on the intersection of their supports;
/// keys of `a` absent from `b` keep their probability.
pub open spec fn mult_raw(a: Seq<(i64, u64)>, b: Seq<(i64, u64)>) -> Seq<(i64, u64)> {
    a.map_values(
        |kv: (i64, u64)|
            match spec_get(b, kv.0) {
                Some(p) => (kv.0, p_mul_spec(kv.1, p)),
                None => kv,
            },
    )
}

/// What [`Message::mult_msg`] yields: the pointwise product, max-scaled
/// unless the product is empty or all-zero (then it is left as it is, since
/// no scale exists).
pub open spec fn spec_mult(a: Seq<(i64, u64)>, b: Seq<(i64, u64)>) -> Seq<(i64, u64)> {
    let r = mult_raw(a, b);
    if r.len() == 0 || max_val(r) == 0 {
        r
    } else {
        norm_seq(r)
    }
}

/// Every probability of `s` is at most 1 (in fixed-point form,
/// [`PROB_ONE`](crate::prob::PROB_ONE)).
pub open spec fn msg_valid(s: Seq<(i64, u64)>) -> bool {
    forall|i: int| 0 <= i < s.len() ==> #[trigger] s[i].1 <= PROB_ONE
}

/// What inserting `(key, p)` into `s` yields: the entry for `key` replaced
/// in place, or a new entry appended.
pub open spec fn spec_insert(s: Seq<(i64, u64)>, key: i64, p: u64) -> Seq<(i64, u64)> {
    if spec_has(s, key) {
        s.map_values(|kv: (i64, u64)| if kv.0 == key { (key, p) } else { kv })
    } else {
        s.push((key, p))
    }
}

/// A key found at an index is found by [`spec_get`], with the value of its
/// first occurrence; under unique keys, that index's own value.
pub proof fn lemma_get_at_index(s: Seq<(i64, u64)>, i: int)
    requires
        0 <= i < s.len(),
        keys_unique(s),
    ensures
        spec_get(s, s[i].0) == Some(s[i].1),
    decreases i,
{
    if i == 0 {
    } else {
        assert(s[0].0 != s[i].0);
        lemma_get_at_index(s.skip(1), i - 1);
        assert(s.skip(1)[i - 1] == s[i]);
        assert(keys_unique(s.skip(1))) by {
            assert(forall|x: int, y: int|
                0 <= x < y < s.skip(1).len() ==> s.skip(1)[x] == s[x + 1] && s.skip(1)[y] == s[y
                    + 1]);
        }
    }
}

/// A key absent from every index is not found by [`spec_get`].
pub proof fn lemma_get_none(s: Seq<(i64, u64)>, key: i64)
    requires
        forall|i: int| 0 <= i < s.len() ==> s[i].0 != key,
    ensures
        spec_get(s, key) is None,
    decreases s.len(),
{
    if s.len() > 0 {
        lemma_get_none(s.skip(1), key);
    }
}

/// The largest probability bounds every entry and is attained.
pub proof fn lemma_max_val_props(s: Seq<(i64, u64)>)
    ensures
        forall|i: int| 0 <= i < s.len() ==> #[trigger] s[i].1 <= max_val(s),
        s.len() > 0 ==> exists|i: int| 0 <= i < s.len() && s[i].1 == max_val(s),
    decreases s.len(),
{
    if s.len() > 0 {
        lemma_max_val_props(s.skip(1));
        assert(forall|i: int| 1 <= i < s.len() ==> s[i] == s.skip(1)[i - 1]);
        if s.len() > 1 && s[0].1 < max_val(s.skip(1)) {
            let j = choose|j: int|
                0 <= j < s.skip(1).len() && s.skip(1)[j].1 == max_val(s.skip(1));
            assert(s[j + 1].1 == max_val(s));
        } else {
            assert(s[0].1 == max_val(s));
        }
    }
}

/// A max-scaled message has largest entry exactly 1.
pub proof fn lemma_norm_max(s: Seq<(i64, u64)>)
    requires
        s.len() > 0,
        max_val(s) > 0,
    ensures
        max_val(norm_seq(s)) == PROB_ONE,
{
    let ns = norm_seq(s);
    lemma_max_val_props(s);
    lemma_max_val_props(ns);
    let j = choose|j: int| 0 <= j < s.len() && s[j].1 == max_val(s);
    crate::prob::lemma_scale_bounds(s[j].1, max_val(s));
    assert(ns[j].1 == PROB_ONE);
    assert forall|i: int| 0 <= i < ns.len() implies #[trigger] ns[i].1 <= PROB_ONE by {
        crate::prob::lemma_scale_bounds(s[i].1, max_val(s));
    }
}

/// A distribution-like container over `i64`: a finite mapping from domain
/// values to fixed-point probabilities, in insertion order.
#[derive(Debug)]
pub struct Message {
    entries: Vec<(i64, Probability)>,
}

impl View for Message {
    type V = Seq<(i64, u64)>;

    closed spec fn view(&self) -> Seq<(i64, u64)> {
        self.entries@
    }
}

impl Clone for Message {
    /// A clone holds the same entries.
    fn clone(&self) -> (r: Self)
        ensures
            r@ == self@,
    {
        let mut entries: Vec<(i64, Probability)> = Vec::new();
        let mut i: usize = 0;
        while i < self.entries.len()
            invariant
                i <= self.entries.len(),
                entries@ == self.entries@.take(i as int),
            decreases self.entries.len() - i,
        {
            entries.push(self.entries[i]);
            proof {
                assert(entries@ =~= self.entries@.take(i + 1 as int));
            }
            i += 1;
        }
        proof {
            assert(entries@ =~= self.entries@);
        }
        Message { entries }
    }
}

impl Message {
    /// The entries have unique keys.
    pub open spec fn wf(&self) -> bool {
        keys_unique(self@)
    }

    /// An empty message.
    pub fn new() -> (r: Self)
        ensures
            r@ == Seq::<(i64, u64)>::empty(),
            r.wf(),
    {
        Message { entries: Vec::new() }
    }

    /// How many domain values the message maps.
    pub fn len(&self) -> (r: usize)
        ensures
            r == self@.len(),
    {
        self.entries.len()
    }

    /// Whether the message maps no value.
    pub fn is_empty(&self) -> (r: bool)
        ensures
            r == (self@.len() == 0),
    {
        self.entries.is_empty()
    }

    /// The entry at position `i`, in insertion order.
    pub fn entry(&self, i: usize) -> (r: (i64, Probability))
        requires
            i < self@.len(),
        ensures
            r == self@[i as int],
    {
        self.entries[i]
    }

    /// The probability mapped to `value`, or `None` when absent.
    pub fn get(&self, value: i64) -> (r: Option<Probability>)
        ensures
            r == spec_get(self@, value),
    {
        let n = self.entries.len();
        let mut i: usize = 0;
        proof {
            assert(self@.skip(0) =~= self@);
        }
        while i < n
            invariant
                n == self@.len(),
                i <= n,
                spec_get(self@, value) == spec_get(self@.skip(i as int), value),
            decreases n - i,
        {
            let e = self.entries[i];
            proof {
                assert(self@.skip(i as int)[0] == self@[i as int]);
            }
            if e.0 == value {
                return Some(e.1);
            }
            proof {
                assert(self@.skip(i as int).skip(1) =~= self@.skip(i + 1 as int));
            }
            i += 1;
        }
        proof {
            assert(self@.skip(n as int) =~= Seq::<(i64, u64)>::empty());
        }
        None
    }

    /// Maps `value` to `p`, replacing any prior mapping in place.
    pub fn insert(&mut self, value: i64, p: Probability)
        requires
            old(self).wf(),
        ensures
            final(self)@ == spec_insert(old(self)@, value, p),
            final(self).wf(),
            spec_get(final(self)@, value) == Some(p),
    {
        let ghost s = old(self)@;
        let n = self.entries.len();
        let mut i: usize = 0;
        while i < n
            invariant
                self@ == s,
                s == old(self)@,
                n == s.len(),
                i <= n,
                keys_unique(s),
                forall|j: int| 0 <= j < i ==> s[j].0 != value,
            decreases n - i,
        {
            if self.entries[i].0 == value {
                proof {
                    assert(s[i as int].0 == value);
                    lemma_get_at_index(s, i as int);
                    assert(spec_has(s, value));
                }
                self.entries[i] = (value, p);
                proof {
                    assert(self@ == s.update(i as int, (value, p)));
                    assert(self@ =~= spec_insert(s, value, p));
                    assert(keys_unique(self@));
                    lemma_get_at_index(self@, i as int);
                }
                return ;
            }
            i += 1;
        }
        proof {
            lemma_get_none(s, value);
        }
        self.entries.push((value, p));
        proof {
            assert(self@ =~= s.push((value, p)));
            assert(keys_unique(self@)) by {
                assert(forall|j: int| 0 <= j < s.len() ==> self@[j] == s[j]);
            }
            lemma_get_at_index(self@, s.len() as int);
        }
    }

    /// Whether every probability is at most 1 (valid as a partial belief).
    pub fn is_valid(&self) -> (r: bool)
        ensures
            r == msg_valid(self@),
    {
        let n = self.entries.len();
        let mut i: usize = 0;
        while i < n
            invariant
                n == self@.len(),
                i <= n,
                forall|j: int| 0 <= j < i ==> #[trigger] self@[j].1 <= PROB_ONE,
            decreases n - i,
        {
            if self.entries[i].1 > PROB_ONE {
                return false;
            }
            i += 1;
        }
        true
    }

    /// The largest probability in the message, or 0 when empty.
    pub fn max_entry(&self) -> (r: Probability)
        ensures
            r == max_val(self@),
    {
        let n = self.entries.len();
        let mut m: u64 = 0;
        let mut i: usize = 0;
        proof {
            assert(self@.skip(0) =~= self@);
        }
        while i < n
            invariant
                n == self@.len(),
                i <= n,
                max_val(self@) == if m >= max_val(self@.skip(i as int)) {
                    m
                } else {
                    max_val(self@.skip(i as int))
                },
            decreases n - i,
        {
            let e = self.entries[i];
            proof {
                assert(self@.skip(i as int)[0] == self@[i as int]);
                assert(self@.skip(i as int).skip(1) =~= self@.skip(i + 1 as int));
            }
            if e.1 > m {
                m = e.1;
            }
            i += 1;
        }
        proof {
            assert(self@.skip(n as int) =~= Seq::<(i64, u64)>::empty());
        }
        m
    }

    /// Max-scales the message: divides every entry by the largest one, so
    /// the largest becomes exactly 1. Fails with `NormalizationFailure` on an
    /// empty message and with `Degenerate` when every entry is zero; the
    /// message is unchanged on failure.
    pub fn normalize(&mut self) -> (r: BPResult<()>)
        ensures
            match r {
                Ok(()) => old(self)@.len() > 0 && max_val(old(self)@) > 0 && final(self)@
                    == norm_seq(old(self)@) && msg_valid(final(self)@),
                Err(e) => final(self)@ == old(self)@ && (e.spec_kind()
                    == ErrorKind::NormalizationFailure
                    <==> old(self)@.len() == 0) && (e.spec_kind() == ErrorKind::Degenerate <==> (old(
                    self,
                )@.len() > 0 && max_val(old(self)@) == 0)),
            },
            old(self)@.len() > 0 && max_val(old(self)@) > 0 <==> r is Ok,
            old(self).wf() ==> final(self).wf(),
    {
        let ghost s = old(self)@;
        if self.entries.is_empty() {
            return Err(
                BPError::with_kind(
                    ErrorKind::NormalizationFailure,
                    "Message::normalize".to_owned(),
                    "message is empty".to_owned(),
                ),
            );
        }
        let m = self.max_entry();
        if m == 0 {
            return Err(
                BPError::with_kind(
                    ErrorKind::Degenerate,
                    "Message::normalize".to_owned(),
                    "every entry is zero".to_owned(),
                ),
            );
        }
        proof {
            lemma_max_val_props(s);
        }
        let n = self.entries.len();
        let mut i: usize = 0;
        while i < n
            invariant
                s == old(self)@,
                n == self@.len(),
                n == s.len(),
                i <= n,
                m == max_val(s),
                m > 0,
                forall|j: int| 0 <= j < s.len() ==> #[trigger] s[j].1 <= m,
                forall|j: int|
                    0 <= j < i ==> #[trigger] self@[j] == (s[j].0, p_scale_spec(s[j].1, m)),
                forall|j: int| i <= j < n ==> #[trigger] self@[j] == s[j],
            decreases n - i,
        {
            let e = self.entries[i];
            let scaled = p_scale(e.1, m);
            self.entries[i] = (e.0, scaled);
            i += 1;
        }
        proof {
            assert(self@ =~= norm_seq(s));
            assert forall|j: int| 0 <= j < self@.len() implies #[trigger] self@[j].1
                <= PROB_ONE by {
                crate::prob::lemma_scale_bounds(s[j].1, m);
            }
            if keys_unique(s) {
                assert(keys_unique(self@));
            }
        }
        Ok(())
    }

    /// Multiplies `self` pointwise by `other` on the intersection of their
    /// supports (keys absent from `other` keep their probability), then
    /// max-scales the result. A product that is empty or all-zero has no
    /// scale and is left as it is.
    pub fn mult_msg(&mut self, other: &Message)
        ensures
            final(self)@ == spec_mult(old(self)@, other@),
            old(self).wf() ==> final(self).wf(),
    {
        let ghost s = old(self)@;
        let n = self.entries.len();
        let mut i: usize = 0;
        while i < n
            invariant
                s == old(self)@,
                n == self@.len(),
                n == s.len(),
                i <= n,
                forall|j: int| 0 <= j < i ==> #[trigger] self@[j] == mult_raw(s, other@)[j],
                forall|j: int| i <= j < n ==> #[trigger] self@[j] == s[j],
            decreases n - i,
        {
            let e = self.entries[i];
            match other.get(e.0) {
                Some(p) => {
                    let v = p_mul(e.1, p);
                    self.entries[i] = (e.0, v);
                },
                None => {},
            }
            i += 1;
        }
        proof {
            assert(self@ =~= mult_raw(s, other@));
            assert(forall|j: int| 0 <= j < n ==> #[trigger] self@[j].0 == s[j].0);
            if keys_unique(s) {
                assert(keys_unique(self@));
            }
        }
        if !self.entries.is_empty() {
            let m = self.max_entry();
            if m > 0 {
                let ghost raw = mult_raw(old(self)@, other@);
                proof {
                    assert(self@ == raw);
                    lemma_max_val_props(raw);
                }
                let n2 = self.entries.len();
                let mut i2: usize = 0;
                while i2 < n2
                    invariant
                        raw == mult_raw(old(self)@, other@),
                        n2 == self@.len(),
                        n2 == raw.len(),
                        i2 <= n2,
                        m == max_val(raw),
                        m > 0,
                        forall|j: int| 0 <= j < raw.len() ==> #[trigger] raw[j].1 <= m,
                        forall|j: int|
                            0 <= j < i2 ==> #[trigger] self@[j] == (
                                raw[j].0,
                                p_scale_spec(raw[j].1, m),
                            ),
                        forall|j: int| i2 <= j < n2 ==> #[trigger] self@[j] == raw[j],
                    decreases n2 - i2,
                {
                    let e = self.entries[i2];
                    let scaled = p_scale(e.1, m);
                    self.entries[i2] = (e.0, scaled);
                    i2 += 1;
                }
                proof {
                    assert(self@ =~= norm_seq(raw));
                    assert(forall|j: int| 0 <= j < n ==> #[trigger] self@[j].0 == raw[j].0);
                    if keys_unique(s) {
                        assert(keys_unique(self@));
                    }
                }
            }
        }
    }

    /// Replaces the probability of the entry at position `i`, keeping its
    /// key.
    pub fn set_entry(&mut self, i: usize, p: Probability)
        requires
            i < old(self)@.len(),
        ensures
            final(self)@ == old(self)@.update(i as int, (old(self)@[i as int].0, p)),
    {
        let k = self.entries[i].0;
        self.entries[i] = (k, p);
    }

    /// A copy of the entries, in insertion order.
    pub fn to_vec(&self) -> (r: Vec<(i64, Probability)>)
        ensures
            r@ == self@,
    {
        let mut r: Vec<(i64, Probability)> = Vec::new();
        let mut i: usize = 0;
        while i < self.entries.len()
            invariant
                i <= self.entries.len(),
                r@ == self@.take(i as int),
            decreases self.entries.len() - i,
        {
            r.push(self.entries[i]);
            proof {
                assert(r@ =~= self@.take(i + 1 as int));
            }
            i += 1;
        }
        proof {
            assert(r@ =~= self@);
        }
        r
    }
}

/// The view of a `(sender, message)` list: each message replaced by its
/// entry sequence.
pub open spec fn posts(s: Seq<(usize, Message)>) -> Seq<(usize, Seq<(i64, u64)>)> {
    s.map_values(|e: (usize, Message)| (e.0, e.1@))
}

/// Multiplies `op0` pointwise by `op1` and max-scales, exactly as
/// [`Message::mult_msg`] does.
pub fn mult_hashmaps(op0: &mut Message, op1: &Message)
    ensures
        final(op0)@ == spec_mult(old(op0)@, op1@),
        old(op0).wf() ==> final(op0).wf(),
{
    op0.mult_msg(op1);
}

} // verus!
