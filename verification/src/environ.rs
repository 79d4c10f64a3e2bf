//! The request's environment (the FastCGI parameters) and cookies.
use vstd::prelude::*;
use crate::text::{
    copy_range, find, find_bytes, occurs_at, find_from, lemma_find_from, same_bytes, to_vec, trim, trim_bytes,
    views,
};

verus! {

/// The value the latest entry for `key` among `keys`/`values` holds.
pub open spec fn lookup(keys: Seq<Seq<u8>>, values: Seq<Seq<u8>>, key: Seq<u8>) -> Option<Seq<u8>>
    decreases keys.len(),
{
    if keys.len() == 0 {
        None
    } else if keys.last() == key {
        Some(values[keys.len() - 1])
    } else {
        lookup(keys.drop_last(), values.drop_last(), key)
    }
}

/// Names and values of the request's environment, each name once, in the
/// order they were first set. Two vectors rather than a `HashMap`: the names
/// are byte strings, and a `HashMap` keyed by them gives no contract that a
/// lookup could be proved from; and `getEnvirons` lists the names in the order
/// held here rather than in a hash order that differs from run to run.
pub struct Environs {
    keys: Vec<Vec<u8>>,
    values: Vec<Vec<u8>>,
}

/// No name occurs twice.
pub open spec fn distinct(keys: Seq<Seq<u8>>) -> bool {
    forall|i: int, j: int| 0 <= i < j < keys.len() ==> keys[i] != keys[j]
}

proof fn lemma_lookup_found(keys: Seq<Seq<u8>>, values: Seq<Seq<u8>>, i: int)
    requires
        distinct(keys),
        keys.len() == values.len(),
        0 <= i < keys.len(),
    ensures
        lookup(keys, values, keys[i]) == Some(values[i]),
    decreases keys.len(),
{
    if i < keys.len() - 1 {
        lemma_lookup_found(keys.drop_last(), values.drop_last(), i);
    }
}

proof fn lemma_lookup_missing(keys: Seq<Seq<u8>>, values: Seq<Seq<u8>>, key: Seq<u8>)
    requires
        forall|i: int| 0 <= i < keys.len() ==> keys[i] != key,
    ensures
        lookup(keys, values, key) is None,
    decreases keys.len(),
{
    if keys.len() > 0 {
        lemma_lookup_missing(keys.drop_last(), values.drop_last(), key);
    }
}

proof fn lemma_lookup_update(
    keys: Seq<Seq<u8>>,
    values: Seq<Seq<u8>>,
    i: int,
    value: Seq<u8>,
    other: Seq<u8>,
)
    requires
        distinct(keys),
        keys.len() == values.len(),
        0 <= i < keys.len(),
    ensures
        lookup(keys, values.update(i, value), other) == if other == keys[i] {
            Some(value)
        } else {
            lookup(keys, values, other)
        },
    decreases keys.len(),
{
    if i < keys.len() - 1 {
        assert(values.update(i, value).drop_last() =~= values.drop_last().update(i, value));
        lemma_lookup_update(keys.drop_last(), values.drop_last(), i, value, other);
        if other == keys[i] {
            assert(keys.last() != keys[i]);
        }
    } else {
        assert(values.update(i, value).drop_last() =~= values.drop_last());
    }
}

impl View for Environs {
    type V = Map<Seq<u8>, Seq<u8>>;

    closed spec fn view(&self) -> Map<Seq<u8>, Seq<u8>> {
        Map::new(
            |k: Seq<u8>| lookup(views(self.keys@), views(self.values@), k) is Some,
            |k: Seq<u8>| lookup(views(self.keys@), views(self.values@), k).unwrap(),
        )
    }
}

/// The value of `key` in an environment, empty when it has none.
pub open spec fn environ_or_empty(e: Map<Seq<u8>, Seq<u8>>, key: Seq<u8>) -> Seq<u8> {
    if e.contains_key(key) {
        e[key]
    } else {
        Seq::empty()
    }
}

/// Where `key` is among `keys`: an index that holds it, or `None` when none does.
fn position_in(keys: &Vec<Vec<u8>>, key: &[u8]) -> (r: Option<usize>)
    ensures
        r matches Some(i) ==> i < keys@.len() && views(keys@)[i as int] == key@,
        r is None ==> forall|i: int| 0 <= i < keys@.len() ==> views(keys@)[i] != key@,
{
    let mut i: usize = 0;
    while i < keys.len()
        invariant
            i <= keys@.len(),
            forall|j: int| 0 <= j < i ==> views(keys@)[j] != key@,
        decreases keys@.len() - i,
    {
        if same_bytes(keys[i].as_slice(), key) {
            return Some(i);
        }
        i += 1;
    }
    None
}

impl Environs {
    /// As many values as names, and no name twice.
    #[verifier::type_invariant]
    closed spec fn wf(&self) -> bool {
        &&& self.keys@.len() == self.values@.len()
        &&& distinct(views(self.keys@))
    }

    /// The names, in the order they are held.
    pub closed spec fn names(&self) -> Seq<Seq<u8>> {
        views(self.keys@)
    }

    /// An empty environment.
    pub fn new() -> (r: Environs)
        ensures
            r@ == Map::<Seq<u8>, Seq<u8>>::empty(),
    {
        let r = Environs { keys: Vec::new(), values: Vec::new() };
        assert(r@ =~= Map::<Seq<u8>, Seq<u8>>::empty());
        r
    }

    /// Sets `key` to `value`, replacing any value it had.
    pub fn insert(&mut self, key: Vec<u8>, value: Vec<u8>)
        ensures
            final(self)@ == old(self)@.insert(key@, value@),
    {
        let ghost k = key@;
        let ghost v = value@;
        let mut current = Environs::new();
        std::mem::swap(&mut current, self);
        proof {
            use_type_invariant(&current);
        }
        let ghost before = current@;
        let Environs { mut keys, mut values } = current;
        let ghost kb = views(keys@);
        let ghost vb = views(values@);
        assert(before == Map::new(
            |x: Seq<u8>| lookup(kb, vb, x) is Some,
            |x: Seq<u8>| lookup(kb, vb, x).unwrap(),
        ));
        match position_in(&keys, key.as_slice()) {
            Some(i) => {
                values.set(i, value);
                proof {
                    assert(views(values@) =~= vb.update(i as int, v));
                    assert forall|other: Seq<u8>|
                        #![auto]
                        lookup(views(keys@), views(values@), other) == if other == k {
                            Some(v)
                        } else {
                            lookup(kb, vb, other)
                        } by {
                        lemma_lookup_update(kb, vb, i as int, v, other);
                    }
                }
            },
            None => {
                keys.push(key);
                values.push(value);
                proof {
                    assert(views(keys@) =~= kb.push(k));
                    assert(views(values@) =~= vb.push(v));
                    assert forall|a: int, b: int|
                        0 <= a < b < views(keys@).len() implies views(keys@)[a] != views(
                            keys@,
                        )[b] by {
                        if b == kb.len() {
                            assert(kb[a] != k);
                        } else {
                            assert(kb[a] != kb[b]);
                        }
                    }
                    assert(views(keys@).drop_last() =~= kb);
                    assert(views(values@).drop_last() =~= vb);
                }
            },
        }
        *self = Environs { keys, values };
        assert(self@ =~= before.insert(k, v));
    }

    /// The value of `key`, empty when it has none.
    pub fn get_or_empty(&self, key: &[u8]) -> (r: Vec<u8>)
        ensures
            r@ == environ_or_empty(self@, key@),
    {
        proof {
            use_type_invariant(self);
        }
        match position_in(&self.keys, key) {
            Some(i) => {
                proof {
                    lemma_lookup_found(views(self.keys@), views(self.values@), i as int);
                }
                to_vec(self.values[i].as_slice())
            },
            None => {
                proof {
                    lemma_lookup_missing(views(self.keys@), views(self.values@), key@);
                }
                Vec::new()
            },
        }
    }

    /// Every name, each once.
    pub fn names_list(&self) -> (r: Vec<Vec<u8>>)
        ensures
            distinct(views(r@)),
            forall|k: Seq<u8>| self@.contains_key(k) <==> views(r@).contains(k),
    {
        proof {
            use_type_invariant(self);
        }
        let mut r: Vec<Vec<u8>> = Vec::new();
        let mut i: usize = 0;
        while i < self.keys.len()
            invariant
                self.wf(),
                i <= self.keys@.len(),
                views(r@) == self.names().take(i as int),
            decreases self.keys@.len() - i,
        {
            let ghost before = views(r@);
            let name = to_vec(self.keys[i].as_slice());
            r.push(name);
            proof {
                assert(views(r@) =~= before.push(name@));
                assert(name@ == self.names()[i as int]);
            }
            i += 1;
            assert(views(r@) =~= self.names().take(i as int));
        }
        proof {
            assert(views(r@) =~= self.names());
            assert forall|k: Seq<u8>| self@.contains_key(k) <==> views(r@).contains(k) by {
                if views(r@).contains(k) {
                    let j = choose|j: int| 0 <= j < views(r@).len() && views(r@)[j] == k;
                    lemma_lookup_found(views(self.keys@), views(self.values@), j);
                } else {
                    lemma_lookup_missing(views(self.keys@), views(self.values@), k);
                }
            }
        }
        r
    }
}

/// Reading a variable gives back what was last set for it, and setting one
/// variable leaves the others as they were.
pub proof fn environ_read_after_write(
    e: Map<Seq<u8>, Seq<u8>>,
    key: Seq<u8>,
    value: Seq<u8>,
    other: Seq<u8>,
)
    ensures
        environ_or_empty(e.insert(key, value), key) == value,
        other != key ==> environ_or_empty(e.insert(key, value), other) == environ_or_empty(
            e,
            other,
        ),
{
}

// ---------------------------------------------------------------------------
// Cookies.

/// The value of cookie `name` in a `Cookie` header: after the first
/// `name=`, up to the next `;` or the end, without surrounding white space;
/// empty when `name=` does not occur.
pub open spec fn cookie_value(header: Seq<u8>, name: Seq<u8>) -> Seq<u8> {
    match find(header, name.push(61u8)) {
        Some(p) => {
            let start = p + name.len() + 1;
            let end = match find_from(header, seq![59u8], start) {
                Some(e) => e,
                None => header.len() as int,
            };
            trim(header.subrange(start, end))
        },
        None => Seq::empty(),
    }
}

/// The value of a cookie runs from just after the first `name=` in the header
/// to the next `;` (or the end of the header), whatever other bytes, `=`
/// among them, it holds, without surrounding white space; a header without
/// `name=` gives nothing.
pub proof fn cookie_value_runs_to_the_next_semicolon(
    header: Seq<u8>,
    name: Seq<u8>,
    p: int,
    q: int,
)
    requires
        occurs_at(header, name.push(61u8), p),
        forall|j: int| 0 <= j < p ==> !occurs_at(header, name.push(61u8), j),
        p + name.len() + 1 <= q <= header.len(),
        forall|j: int| p + name.len() + 1 <= j < q ==> header[j] != 59,
        q == header.len() || header[q] == 59,
    ensures
        cookie_value(header, name) == trim(header.subrange(p + name.len() + 1, q)),
{
    let pat = name.push(61u8);
    lemma_find_from(header, pat, 0);
    let start = p + name.len() + 1;
    lemma_find_from(header, seq![59u8], start);
    assert forall|j: int| start <= j < q implies !occurs_at(header, seq![59u8], j) by {
        if occurs_at(header, seq![59u8], j) {
            assert(header.subrange(j, j + 1)[0] == header[j]);
        }
    }
    if q < header.len() {
        assert(header.subrange(q, q + 1) =~= seq![59u8]);
        assert(occurs_at(header, seq![59u8], q));
    }
}

/// A header in which `name=` does not occur gives no value.
pub proof fn cookie_absent_gives_nothing(header: Seq<u8>, name: Seq<u8>)
    requires
        forall|j: int| !occurs_at(header, name.push(61u8), j),
    ensures
        cookie_value(header, name) == Seq::<u8>::empty(),
{
    lemma_find_from(header, name.push(61u8), 0);
}

/// The value of cookie `name` in the header text `header`.
pub fn find_cookie(header: &[u8], name: &[u8]) -> (r: Vec<u8>)
    ensures
        r@ == cookie_value(header@, name@),
{
    let hl = header.len();
    let mut pattern = to_vec(name);
    pattern.push(61u8);
    match find_bytes(header, pattern.as_slice()) {
        Some(p) => {
            proof {
                lemma_find_from(header@, pattern@, 0);
                assert(pattern@.len() == name@.len() + 1);
                assert(occurs_at(header@, pattern@, p as int));
                assert(p + name@.len() + 1 <= hl);
            }
            let start = p + name.len() + 1;
            let mut end = start;
            while end < header.len() && header[end] != 59
                invariant
                    start <= end <= header@.len(),
                    find_from(header@, seq![59u8], start as int) == find_from(
                        header@,
                        seq![59u8],
                        end as int,
                    ),
                decreases header@.len() - end,
            {
                assert(header@.subrange(end as int, end + 1) != seq![59u8]) by {
                    assert(header@.subrange(end as int, end + 1)[0] == header@[end as int]);
                }
                end += 1;
            }
            proof {
                if end < header@.len() {
                    assert(header@.subrange(end as int, end + 1) =~= seq![59u8]);
                }
            }
            let value = copy_range(header, start, end);
            trim_bytes(value.as_slice())
        },
        None => Vec::new(),
    }
}

} // verus!
