use vstd::prelude::*;
use vstd::string::StrSliceExecFns;
use vstd::string::StringExecFns;

use crate::codec::{address_ok, valid_address, ProtocolError};
use crate::text::{
    find_char, find_char_in, parse_u32, push_char, spec_decimal, spec_parse_decimal, str_eq,
    u32_to_string,
};

verus! {

/// The set of known (id, address) pairs, kept as a duplicate-free vector so
/// that iteration order is deterministic.
pub struct Registry {
    pub entries: Vec<(u32, String)>,
}

impl View for Registry {
    type V = Seq<(u32, Seq<char>)>;

    open spec fn view(&self) -> Seq<(u32, Seq<char>)> {
        self.entries@.map_values(|e: (u32, String)| (e.0, e.1@))
    }
}

impl Registry {
    /// No two entries are the same pair, and every address is legal on the
    /// wire.
    pub open spec fn wf(self) -> bool {
        &&& forall|i: int, j: int| 0 <= i < j < self@.len() ==> self@[i] != self@[j]
        &&& forall|i: int| 0 <= i < self@.len() ==> valid_address((#[trigger] self@[i]).1)
    }

    pub open spec fn spec_contains(self, e: (u32, Seq<char>)) -> bool {
        self@.contains(e)
    }

    pub fn new() -> (r: Registry)
        ensures
            r@ =~= Seq::<(u32, Seq<char>)>::empty(),
            r.wf(),
    {
        Registry { entries: Vec::new() }
    }

    pub fn len(&self) -> (r: usize)
        ensures
            r == self@.len(),
    {
        self.entries.len()
    }

    /// Whether the exact pair is present.
    pub fn contains_entry(&self, peer_id: u32, peer_addr: &String) -> (r: bool)
        ensures
            r == self.spec_contains((peer_id, peer_addr@)),
    {
        let n = self.entries.len();
        let mut i: usize = 0;
        while i < n
            invariant
                i <= n == self@.len(),
                forall|j: int| 0 <= j < i ==> #[trigger] self@[j] != (peer_id, peer_addr@),
            decreases n - i,
        {
            let eid = self.entries[i].0;
            if eid == peer_id && str_eq(self.entries[i].1.as_str(), peer_addr.as_str()) {
                proof {
                    assert(self@[i as int] == (peer_id, peer_addr@));
                }
                return true;
            }
            proof {
                assert(self@[i as int] != (peer_id, peer_addr@));
            }
            i = i + 1;
        }
        proof {
            if self@.contains((peer_id, peer_addr@)) {
                let j = choose|j: int|
                    0 <= j < self@.len() && self@[j] == (peer_id, peer_addr@);
                assert(self@[j] != (peer_id, peer_addr@));
            }
        }
        false
    }

    /// Adds the pair; reports whether it was new.
    pub fn insert(&mut self, peer_id: u32, peer_addr: String) -> (r: bool)
        requires
            old(self).wf(),
            valid_address(peer_addr@),
        ensures
            final(self).wf(),
            r == !old(self).spec_contains((peer_id, peer_addr@)),
            r ==> final(self)@ == old(self)@.push((peer_id, peer_addr@)),
            !r ==> final(self)@ == old(self)@,
            final(self)@.to_set() == old(self)@.to_set().insert((peer_id, peer_addr@)),
    {
        if self.contains_entry(peer_id, &peer_addr) {
            proof {
                assert(old(self)@.to_set() =~= old(self)@.to_set().insert((peer_id, peer_addr@)));
            }
            false
        } else {
            let ghost pre = self@;
            self.entries.push((peer_id, peer_addr));
            proof {
                assert(self@ =~= pre.push((peer_id, self.entries@.last().1@)));
                lemma_to_set_push(pre, self@.last());
                assert forall|i: int, j: int| 0 <= i < j < self@.len() implies self@[i]
                    != self@[j] by {
                    if j < pre.len() {
                        assert(self@[i] == pre[i] && self@[j] == pre[j]);
                    } else {
                        assert(self@[i] == pre[i]);
                        assert(!pre.contains(self@[j]));
                    }
                }
            }
            true
        }
    }

    /// Removes the pair; reports whether it was present.
    pub fn remove(&mut self, peer_id: u32, peer_addr: &String) -> (r: bool)
        requires
            old(self).wf(),
        ensures
            final(self).wf(),
            r == old(self).spec_contains((peer_id, peer_addr@)),
            r ==> final(self)@ == remove_pair(old(self)@, (peer_id, peer_addr@)),
            !r ==> final(self)@ == old(self)@,
            !final(self).spec_contains((peer_id, peer_addr@)),
            final(self)@.to_set() == old(self)@.to_set().remove((peer_id, peer_addr@)),
    {
        let ghost target = (peer_id, peer_addr@);
        let n = self.entries.len();
        let mut i: usize = 0;
        while i < n
            invariant
                i <= n == self@.len(),
                forall|j: int| 0 <= j < i ==> #[trigger] self@[j] != target,
                target == (peer_id, peer_addr@),
                self@ == old(self)@,
                old(self).wf(),
            decreases n - i,
        {
            let eid = self.entries[i].0;
            if eid == peer_id && str_eq(self.entries[i].1.as_str(), peer_addr.as_str()) {
                let ghost pre = self@;
                proof {
                    assert(pre[i as int] == target);
                    assert(pre.contains(target));
                }
                self.entries.remove(i);
                proof {
                    assert(self@ =~= pre.remove(i as int));
                    lemma_remove_pair_at(pre, target, i as int);
                    lemma_remove_distinct(pre, i as int);
                    assert(!self@.contains(target)) by {
                        if self@.contains(target) {
                            let k = choose|k: int| 0 <= k < self@.len() && self@[k] == target;
                            if k < i as int {
                                assert(pre[k] == target);
                            } else {
                                assert(pre[k + 1] == target);
                                assert(pre[i as int] == target);
                            }
                        }
                    }
                    lemma_remove_to_set(pre, i as int);
                    assert(self@.to_set() =~= pre.to_set().remove(target));
                }
                return true;
            }
            proof {
                assert(self@[i as int] != target);
            }
            i = i + 1;
        }
        proof {
            if self@.contains(target) {
                let j = choose|j: int| 0 <= j < self@.len() && self@[j] == target;
                assert(self@[j] != target);
            }
            assert(self@.to_set() =~= self@.to_set().remove(target));
        }
        false
    }

    /// Merge: keep every pair of both registries, appending the new pairs
    /// of the other registry in its order.
    pub fn union_with(&mut self, other: &Registry)
        requires
            old(self).wf(),
            other.wf(),
        ensures
            final(self).wf(),
            final(self)@ == spec_union(old(self)@, other@),
            final(self)@.to_set() == old(self)@.to_set().union(other@.to_set()),
    {
        let n = other.entries.len();
        let mut i: usize = 0;
        while i < n
            invariant
                i <= n == other@.len(),
                self.wf(),
                other.wf(),
                self@ == spec_union(old(self)@, other@.subrange(0, i as int)),
                self@.to_set() =~= old(self)@.to_set().union(other@.subrange(0, i as int).to_set()),
            decreases n - i,
        {
            let eid = other.entries[i].0;
            let addr = other.entries[i].1.clone();
            proof {
                assert(other@[i as int].1 == addr@);
                assert(valid_address(other@[i as int].1));
            }
            let ghost pre_set = self@.to_set();
            self.insert(eid, addr);
            proof {
                let e = other@[i as int];
                assert(other@.subrange(0, i + 1).drop_last() =~= other@.subrange(0, i as int));
                lemma_to_set_push(other@.subrange(0, i as int), e);
                assert(other@.subrange(0, i as int).push(e) =~= other@.subrange(0, i + 1));
                assert(self@.to_set() =~= old(self)@.to_set().union(
                    other@.subrange(0, i + 1).to_set(),
                ));
                assert(other@.subrange(0, i + 1).last() == e);
                assert(self@ == spec_union(old(self)@, other@.subrange(0, i + 1)));
            }
            i = i + 1;
        }
        proof {
            assert(other@.subrange(0, n as int) =~= other@);
        }
    }

    /// The greatest id present, or `start` when that is greater still.
    pub fn max_id_from(&self, start: u32) -> (r: u32)
        ensures
            r == spec_max_id(self@, start),
    {
        let n = self.entries.len();
        let mut m: u32 = start;
        let mut i: usize = 0;
        while i < n
            invariant
                i <= n == self@.len(),
                m == spec_max_id(self@.subrange(0, i as int), start),
            decreases n - i,
        {
            let eid = self.entries[i].0;
            proof {
                assert(self@.subrange(0, i + 1).drop_last() =~= self@.subrange(0, i as int));
                assert(self@.subrange(0, i + 1).last() == self@[i as int]);
            }
            if eid > m {
                m = eid;
            }
            i = i + 1;
        }
        proof {
            assert(self@.subrange(0, n as int) =~= self@);
        }
        m
    }
}

pub open spec fn spec_max_id(s: Seq<(u32, Seq<char>)>, start: u32) -> u32
    decreases s.len(),
{
    if s.len() == 0 {
        start
    } else {
        let m = spec_max_id(s.drop_last(), start);
        if s.last().0 > m {
            s.last().0
        } else {
            m
        }
    }
}

/// The merge of two registries as sequences: the first, then every pair of
/// the second that is not yet present, in the second's order.
pub open spec fn spec_union(a: Seq<(u32, Seq<char>)>, b: Seq<(u32, Seq<char>)>) -> Seq<
    (u32, Seq<char>),
>
    decreases b.len(),
{
    if b.len() == 0 {
        a
    } else {
        let r = spec_union(a, b.drop_last());
        if r.contains(b.last()) {
            r
        } else {
            r.push(b.last())
        }
    }
}

/// The sequence with the first occurrence of a pair removed.
pub open spec fn remove_pair(s: Seq<(u32, Seq<char>)>, e: (u32, Seq<char>)) -> Seq<
    (u32, Seq<char>),
>
    decreases s.len(),
{
    if s.len() == 0 {
        s
    } else if s[0] == e {
        s.drop_first()
    } else {
        seq![s[0]] + remove_pair(s.drop_first(), e)
    }
}

/// Removing a pair that is not present changes nothing.
pub proof fn lemma_remove_pair_absent(s: Seq<(u32, Seq<char>)>, e: (u32, Seq<char>))
    requires
        !s.contains(e),
    ensures
        remove_pair(s, e) =~= s,
    decreases s.len(),
{
    if s.len() > 0 {
        assert(s[0] != e);
        let t = s.drop_first();
        assert(!t.contains(e)) by {
            if t.contains(e) {
                let i = choose|i: int| 0 <= i < t.len() && t[i] == e;
                assert(s[i + 1] == e);
            }
        }
        lemma_remove_pair_absent(t, e);
        assert(seq![s[0]] + t =~= s);
    }
}

proof fn lemma_remove_pair_at(s: Seq<(u32, Seq<char>)>, e: (u32, Seq<char>), i: int)
    requires
        0 <= i < s.len(),
        s[i] == e,
        forall|j: int| 0 <= j < i ==> s[j] != e,
    ensures
        remove_pair(s, e) =~= s.remove(i),
    decreases i,
{
    if i == 0 {
        assert(remove_pair(s, e) == s.drop_first());
        assert(s.drop_first() =~= s.remove(0));
    } else {
        let t = s.drop_first();
        assert(t[i - 1] == s[i]);
        assert forall|j: int| 0 <= j < i - 1 implies t[j] != e by {
            assert(t[j] == s[j + 1]);
        }
        lemma_remove_pair_at(t, e, i - 1);
        assert(remove_pair(s, e) == seq![s[0]] + remove_pair(t, e));
        assert(seq![s[0]] + t.remove(i - 1) =~= s.remove(i));
    }
}

pub proof fn lemma_to_set_push<A>(s: Seq<A>, e: A)
    ensures
        s.push(e).to_set() =~= s.to_set().insert(e),
{
    let sp = s.push(e);
    assert forall|x: A| sp.to_set().contains(x) implies s.to_set().insert(e).contains(x) by {
        let i = choose|i: int| 0 <= i < sp.len() && sp[i] == x;
        if i < s.len() {
            assert(s[i] == x);
        } else {
            assert(x == e);
        }
    }
    assert forall|x: A| s.to_set().insert(e).contains(x) implies sp.to_set().contains(x) by {
        if s.to_set().contains(x) {
            let i = choose|i: int| 0 <= i < s.len() && s[i] == x;
            assert(sp[i] == x);
        } else {
            assert(sp[s.len() as int] == e);
        }
    }
}

proof fn lemma_remove_distinct<A>(s: Seq<A>, k: int)
    requires
        0 <= k < s.len(),
        forall|i: int, j: int| 0 <= i < j < s.len() ==> s[i] != s[j],
    ensures
        forall|i: int, j: int| 0 <= i < j < s.remove(k).len() ==> s.remove(k)[i] != s.remove(k)[j],
{
    let t = s.remove(k);
    assert forall|i: int, j: int| 0 <= i < j < t.len() implies t[i] != t[j] by {
        let si = if i < k {
            i
        } else {
            i + 1
        };
        let sj = if j < k {
            j
        } else {
            j + 1
        };
        assert(t[i] == s[si]);
        assert(t[j] == s[sj]);
    }
}

proof fn lemma_remove_to_set<A>(s: Seq<A>, k: int)
    requires
        0 <= k < s.len(),
        forall|i: int, j: int| 0 <= i < j < s.len() ==> s[i] != s[j],
    ensures
        s.remove(k).to_set() =~= s.to_set().remove(s[k]),
{
    let t = s.remove(k);
    assert forall|x: A| t.to_set().contains(x) implies s.to_set().remove(s[k]).contains(x) by {
        let i = choose|i: int| 0 <= i < t.len() && t[i] == x;
        let si = if i < k {
            i
        } else {
            i + 1
        };
        assert(t[i] == s[si]);
        assert(s.contains(x));
        if si < k {
            assert(s[si] != s[k]);
        } else {
            assert(s[k] != s[si]);
        }
    }
    assert forall|x: A| s.to_set().remove(s[k]).contains(x) implies t.to_set().contains(x) by {
        let i = choose|i: int| 0 <= i < s.len() && s[i] == x;
        if i < k {
            assert(t[i] == s[i]);
        } else if i > k {
            assert(t[i - 1] == s[i]);
        } else {
            assert(x == s[k]);
        }
    }
}

// ---------------------------------------------------------------------------
// Wire text: semicolon-joined "id,address" pairs
// ---------------------------------------------------------------------------

pub open spec fn spec_entry_text(e: (u32, Seq<char>)) -> Seq<char> {
    spec_decimal(e.0 as nat) + seq![','] + e.1
}

pub open spec fn spec_registry_text(s: Seq<(u32, Seq<char>)>) -> Seq<char>
    decreases s.len(),
{
    if s.len() == 0 {
        Seq::empty()
    } else if s.len() == 1 {
        spec_entry_text(s[0])
    } else {
        spec_registry_text(s.drop_last()) + seq![';'] + spec_entry_text(s.last())
    }
}

/// Serializes a registry for transmission inside a payload.
pub fn hashset_to_string(set: &Registry) -> (r: String)
    ensures
        r@ == spec_registry_text(set@),
{
    let n = set.entries.len();
    let mut out = String::new();
    let mut i: usize = 0;
    while i < n
        invariant
            i <= n == set@.len(),
            out@ =~= spec_registry_text(set@.subrange(0, i as int)),
        decreases n - i,
    {
        if i > 0 {
            push_char(&mut out, ';');
        }
        let idtxt = u32_to_string(set.entries[i].0);
        out.append(idtxt.as_str());
        push_char(&mut out, ',');
        out.append(set.entries[i].1.as_str());
        i = i + 1;
        proof {
            let sub = set@.subrange(0, i as int);
            assert(sub.last() == set@[i - 1]);
            if i > 1 {
                assert(sub.drop_last() =~= set@.subrange(0, i as int - 1));
            }
            assert(out@ =~= spec_registry_text(sub));
        }
    }
    proof {
        assert(set@.subrange(0, n as int) =~= set@);
    }
    out
}

// ---------------------------------------------------------------------------
// Parsing
// ---------------------------------------------------------------------------

pub open spec fn spec_parse_entry(part: Seq<char>) -> Option<(u32, Seq<char>)> {
    let j = find_char(part, ',');
    if j < 0 || j >= part.len() {
        None
    } else {
        let idtxt = part.subrange(0, j);
        let addr = part.subrange(j + 1, part.len() as int);
        match spec_parse_decimal(idtxt) {
            None => None,
            Some(v) => {
                if v <= u32::MAX && valid_address(addr) {
                    Some((v as u32, addr))
                } else {
                    None
                }
            },
        }
    }
}

pub open spec fn spec_parse_registry(s: Seq<char>) -> Option<Seq<(u32, Seq<char>)>>
    decreases s.len(),
{
    let j = find_char(s, ';');
    if j < 0 {
        match spec_parse_entry(s) {
            Some(e) => Some(seq![e]),
            None => None,
        }
    } else if 0 <= j < s.len() {
        match spec_parse_entry(s.subrange(0, j)) {
            None => None,
            Some(e) => match spec_parse_registry(s.subrange(j + 1, s.len() as int)) {
                None => None,
                Some(rest) => Some(seq![e] + rest),
            },
        }
    } else {
        None
    }
}

fn parse_entry_str(part: &str) -> (r: Option<(u32, String)>)
    ensures
        match r {
            Some(e) => spec_parse_entry(part@) == Some((e.0, e.1@)) && valid_address(e.1@),
            None => spec_parse_entry(part@) is None,
        },
{
    let n = part.unicode_len();
    match find_char_in(part, ',') {
        None => None,
        Some(j) => {
            proof {
                crate::text::lemma_find_char(part@, ',');
            }
            let idtxt = part.substring_char(0, j);
            let addr = part.substring_char(j + 1, n);
            match parse_u32(idtxt) {
                None => {
                    proof {
                        if spec_parse_decimal(part@.subrange(0, j as int)) is Some {
                            crate::text::lemma_digits_value_nonneg(part@.subrange(0, j as int));
                        }
                    }
                    None
                },
                Some(v) => {
                    if address_ok(addr) {
                        Some((v, String::from_str(addr)))
                    } else {
                        None
                    }
                },
            }
        },
    }
}

/// Parses the semicolon-joined serialization. Any malformed entry is a
/// payload error; duplicates collapse into one.
pub fn hashset_from_string(hashset: String) -> (r: Result<Registry, ProtocolError>)
    ensures
        r is Ok ==> spec_parse_registry(hashset@) is Some,
        r is Err ==> spec_parse_registry(hashset@) is None,
        r matches Ok(reg) ==> reg.wf() && reg@ == spec_union(
            Seq::empty(),
            spec_parse_registry(hashset@).unwrap(),
        ) && reg@.to_set() == spec_parse_registry(hashset@).unwrap().to_set(),
        r matches Err(e) ==> e == ProtocolError::BadPayload,
{
    let mut reg = Registry::new();
    let mut rest: &str = hashset.as_str();
    let ghost orig = hashset@;
    let ghost mut acc: Seq<(u32, Seq<char>)> = Seq::empty();
    loop
        invariant
            hashset@ == orig,
            reg.wf(),
            reg@ == spec_union(Seq::empty(), acc),
            reg@.to_set() =~= acc.to_set(),
            spec_parse_registry(orig) is Some ==> spec_parse_registry(rest@) is Some
                && spec_parse_registry(orig).unwrap() =~= acc + spec_parse_registry(
                rest@,
            ).unwrap(),
            spec_parse_registry(rest@) is Some ==> spec_parse_registry(orig) is Some,
        decreases rest@.len(),
    {
        let n = rest.unicode_len();
        match find_char_in(rest, ';') {
            None => {
                proof {
                    crate::text::lemma_find_char(rest@, ';');
                }
                match parse_entry_str(rest) {
                    None => {
                        proof {
                            assert(spec_parse_entry(rest@) is None);
                            assert(find_char(rest@, ';') == -1);
                            assert(spec_parse_registry(rest@) is None);
                            assert(!(spec_parse_registry(orig) is Some));
                        }
                        return Err(ProtocolError::BadPayload);
                    },
                    Some(e) => {
                        let ghost pre_acc = acc;
                        let ghost ev = (e.0, e.1@);
                        proof {
                            assert(spec_parse_registry(rest@) == Some(seq![ev]));
                        }
                        reg.insert(e.0, e.1);
                        proof {
                            acc = pre_acc.push(ev);
                            lemma_to_set_push(pre_acc, ev);
                            assert(acc.drop_last() =~= pre_acc);
                            assert(reg@ == spec_union(Seq::empty(), acc));
                            assert(reg@.to_set() =~= acc.to_set());
                            assert(acc =~= pre_acc + seq![ev]);
                            assert(orig == hashset@);
                            assert(spec_parse_registry(orig) is Some);
                            assert(spec_parse_registry(orig).unwrap() =~= pre_acc
                                + spec_parse_registry(rest@).unwrap());
                            assert(spec_parse_registry(orig).unwrap() =~= acc);
                            assert(spec_parse_registry(orig).unwrap().to_set() =~= acc.to_set());
                            assert(reg@.to_set() =~= spec_parse_registry(orig).unwrap().to_set());
                        }
                        return Ok(reg);
                    },
                }
            },
            Some(j) => {
                proof {
                    crate::text::lemma_find_char(rest@, ';');
                }
                let part = rest.substring_char(0, j);
                let next = rest.substring_char(j + 1, n);
                match parse_entry_str(part) {
                    None => {
                        proof {
                            assert(part@ == rest@.subrange(0, j as int));
                            assert(spec_parse_entry(rest@.subrange(0, j as int)) is None);
                            assert(find_char(rest@, ';') == j);
                            assert(0 <= j < rest@.len());
                            assert(spec_parse_registry(rest@) is None);
                            assert(!(spec_parse_registry(orig) is Some));
                        }
                        return Err(ProtocolError::BadPayload);
                    },
                    Some(e) => {
                        let ghost pre_acc = acc;
                        let ghost ev = (e.0, e.1@);
                        reg.insert(e.0, e.1);
                        proof {
                            acc = pre_acc.push(ev);
                            lemma_to_set_push(pre_acc, ev);
                            assert(acc.drop_last() =~= pre_acc);
                            assert(reg@ == spec_union(Seq::empty(), acc));
                            assert(reg@.to_set() =~= acc.to_set());
                            assert(part@ == rest@.subrange(0, j as int));
                            assert(next@ == rest@.subrange(j + 1, rest@.len() as int));
                            assert(spec_parse_entry(rest@.subrange(0, j as int)) == Some(ev));
                            if spec_parse_registry(next@) is Some {
                                assert(spec_parse_registry(rest@) is Some);
                            }
                            if spec_parse_registry(orig) is Some {
                                assert(spec_parse_registry(rest@) is Some);
                                assert(spec_parse_registry(next@) is Some);
                                assert(spec_parse_registry(rest@).unwrap() =~= seq![ev]
                                    + spec_parse_registry(next@).unwrap());
                                assert(pre_acc + (seq![ev] + spec_parse_registry(next@).unwrap())
                                    =~= acc + spec_parse_registry(next@).unwrap());
                                assert(spec_parse_registry(orig).unwrap() =~= acc
                                    + spec_parse_registry(next@).unwrap());
                            }
                        }
                        rest = next;
                    },
                }
            },
        }
    }
}

// ---------------------------------------------------------------------------
// Serialization round trip
// ---------------------------------------------------------------------------

proof fn lemma_entry_text_no_semi(e: (u32, Seq<char>))
    requires
        valid_address(e.1),
    ensures
        forall|i: int|
            0 <= i < spec_entry_text(e).len() ==> #[trigger] spec_entry_text(e)[i] != ';',
{
    crate::text::lemma_decimal_value(e.0 as nat);
    let t = spec_entry_text(e);
    let d = spec_decimal(e.0 as nat);
    assert forall|i: int| 0 <= i < t.len() implies #[trigger] t[i] != ';' by {
        if i < d.len() {
            assert(t[i] == d[i]);
            assert(crate::text::digit_char(d[i]));
        } else if i == d.len() {
            assert(t[i] == ',');
        } else {
            assert(t[i] == e.1[i - d.len() - 1]);
            assert(crate::codec::addr_char_ok(e.1[i - d.len() - 1]));
        }
    }
}

proof fn lemma_parse_entry_text(e: (u32, Seq<char>))
    requires
        valid_address(e.1),
    ensures
        spec_parse_entry(spec_entry_text(e)) == Some(e),
{
    crate::text::lemma_decimal_value(e.0 as nat);
    let t = spec_entry_text(e);
    let d = spec_decimal(e.0 as nat);
    assert(t[d.len() as int] == ',');
    assert forall|i: int| 0 <= i < d.len() implies t[i] != ',' by {
        assert(t[i] == d[i]);
        assert(crate::text::digit_char(d[i]));
    }
    crate::text::lemma_find_char_at(t, ',', d.len() as int);
    assert(t.subrange(0, d.len() as int) =~= d);
    assert(t.subrange(d.len() as int + 1, t.len() as int) =~= e.1);
    assert(spec_parse_decimal(d) == Some(e.0 as int));
}

proof fn lemma_registry_text_head(s: Seq<(u32, Seq<char>)>)
    requires
        s.len() >= 2,
    ensures
        spec_registry_text(s) =~= spec_entry_text(s[0]) + seq![';'] + spec_registry_text(
            s.drop_first(),
        ),
    decreases s.len(),
{
    let dl = s.drop_last();
    let df = s.drop_first();
    if s.len() == 2 {
        assert(dl =~= seq![s[0]]);
        assert(spec_registry_text(dl) == spec_entry_text(dl[0]));
        assert(df =~= seq![s[1]]);
        assert(spec_registry_text(df) == spec_entry_text(df[0]));
        assert(s.last() == s[1]);
        assert(spec_registry_text(s) =~= spec_entry_text(s[0]) + seq![';'] + spec_registry_text(
            df,
        ));
    } else {
        lemma_registry_text_head(dl);
        assert(dl[0] == s[0]);
        assert(df.last() == s.last());
        assert(df.drop_last() =~= dl.drop_first());
        assert(spec_registry_text(df) == spec_registry_text(df.drop_last()) + seq![';']
            + spec_entry_text(df.last()));
        assert(spec_registry_text(s) == spec_registry_text(dl) + seq![';'] + spec_entry_text(
            s.last(),
        ));
        assert(spec_registry_text(s) =~= spec_entry_text(s[0]) + seq![';'] + spec_registry_text(
            df,
        ));
    }
}

/// Serialization round trip: parsing the wire text of a nonempty registry
/// with legal addresses yields its entries back, in order. (The empty
/// registry has the empty text, which does not parse; no snapshot the
/// engine sends is empty, as a miner's own entry is always present.)
pub proof fn lemma_registry_text_round_trip(s: Seq<(u32, Seq<char>)>)
    requires
        s.len() >= 1,
        forall|i: int| 0 <= i < s.len() ==> valid_address((#[trigger] s[i]).1),
    ensures
        spec_parse_registry(spec_registry_text(s)) == Some(s),
    decreases s.len(),
{
    let t = spec_registry_text(s);
    if s.len() == 1 {
        assert(t == spec_entry_text(s[0]));
        lemma_entry_text_no_semi(s[0]);
        crate::text::lemma_find_char(t, ';');
        if find_char(t, ';') >= 0 {
            assert(t[find_char(t, ';')] == ';');
        }
        assert(find_char(t, ';') == -1);
        lemma_parse_entry_text(s[0]);
        assert(seq![s[0]] =~= s);
    } else {
        lemma_registry_text_head(s);
        let e0 = spec_entry_text(s[0]);
        let rest = spec_registry_text(s.drop_first());
        assert(t == e0 + seq![';'] + rest);
        lemma_entry_text_no_semi(s[0]);
        assert(t[e0.len() as int] == ';');
        assert forall|i: int| 0 <= i < e0.len() implies t[i] != ';' by {
            assert(t[i] == e0[i]);
        }
        crate::text::lemma_find_char_at(t, ';', e0.len() as int);
        assert(t.subrange(0, e0.len() as int) =~= e0);
        assert(t.subrange(e0.len() as int + 1, t.len() as int) =~= rest);
        lemma_parse_entry_text(s[0]);
        assert forall|i: int| 0 <= i < s.drop_first().len() implies valid_address(
            (#[trigger] s.drop_first()[i]).1,
        ) by {
            assert(s.drop_first()[i] == s[i + 1]);
        }
        lemma_registry_text_round_trip(s.drop_first());
        assert(seq![s[0]] + s.drop_first() =~= s);
    }
}

// ---------------------------------------------------------------------------
// Laws of the union
// ---------------------------------------------------------------------------

/// Union is idempotent: merging a registry with itself changes nothing,
/// as sets of (id, address) pairs.
pub proof fn lemma_union_idempotent(a: Seq<(u32, Seq<char>)>)
    ensures
        a.to_set().union(a.to_set()) =~= a.to_set(),
{
}

/// Union is commutative: the merged pair set does not depend on the order
/// of the two registries.
pub proof fn lemma_union_commutative(a: Seq<(u32, Seq<char>)>, b: Seq<(u32, Seq<char>)>)
    ensures
        a.to_set().union(b.to_set()) =~= b.to_set().union(a.to_set()),
{
}

} // verus!
