use vstd::prelude::*;
use vstd::utf8::*;

verus! {

/// Byte-wise lexicographic order.
pub open spec fn bytes_lt(a: Seq<u8>, b: Seq<u8>) -> bool
    decreases a.len(),
{
    if a.len() == 0 {
        b.len() > 0
    } else if b.len() == 0 {
        false
    } else if a[0] != b[0] {
        a[0] < b[0]
    } else {
        bytes_lt(a.drop_first(), b.drop_first())
    }
}

/// The order of parameter names: that of their UTF-8 bytes.
pub open spec fn name_lt(a: Seq<char>, b: Seq<char>) -> bool {
    bytes_lt(encode_utf8(a), encode_utf8(b))
}

pub proof fn lemma_bytes_lt_irreflexive(a: Seq<u8>)
    ensures
        !bytes_lt(a, a),
    decreases a.len(),
{
    if a.len() > 0 {
        lemma_bytes_lt_irreflexive(a.drop_first());
    }
}

pub proof fn lemma_bytes_lt_transitive(a: Seq<u8>, b: Seq<u8>, c: Seq<u8>)
    requires
        bytes_lt(a, b),
        bytes_lt(b, c),
    ensures
        bytes_lt(a, c),
    decreases a.len(),
{
    if a.len() > 0 && b.len() > 0 && c.len() > 0 && a[0] == b[0] && b[0] == c[0] {
        lemma_bytes_lt_transitive(a.drop_first(), b.drop_first(), c.drop_first());
    }
}

pub proof fn lemma_bytes_lt_total(a: Seq<u8>, b: Seq<u8>)
    ensures
        a == b || bytes_lt(a, b) || bytes_lt(b, a),
    decreases a.len(),
{
    if a.len() > 0 && b.len() > 0 && a[0] == b[0] {
        lemma_bytes_lt_total(a.drop_first(), b.drop_first());
        if a.drop_first() == b.drop_first() {
            assert(a =~= seq![a[0]] + a.drop_first());
            assert(b =~= seq![b[0]] + b.drop_first());
        }
    } else if a.len() == 0 && b.len() == 0 {
        assert(a =~= b);
    }
}

pub proof fn lemma_bytes_lt_asymmetric(a: Seq<u8>, b: Seq<u8>)
    requires
        bytes_lt(a, b),
    ensures
        !bytes_lt(b, a),
{
    if bytes_lt(b, a) {
        lemma_bytes_lt_transitive(a, b, a);
        lemma_bytes_lt_irreflexive(a);
    }
}

pub proof fn lemma_encode_utf8_injective(a: Seq<char>, b: Seq<char>)
    requires
        encode_utf8(a) == encode_utf8(b),
    ensures
        a == b,
{
    encode_utf8_decode_utf8(a);
    encode_utf8_decode_utf8(b);
}

/// The names of the entries are strictly increasing.
pub open spec fn sorted_entries(s: Seq<(String, String)>) -> bool {
    forall|i: int, j: int| 0 <= i < j < s.len() ==> name_lt(#[trigger] s[i].0@, #[trigger] s[j].0@)
}

/// The map from names to values that the entries hold.
pub open spec fn entries_map(s: Seq<(String, String)>) -> Map<Seq<char>, Seq<char>>
    decreases s.len(),
{
    if s.len() == 0 {
        Map::empty()
    } else {
        entries_map(s.drop_last()).insert(s.last().0@, s.last().1@)
    }
}

/// `values` inserted into `m` in order.
pub open spec fn insert_all(m: Map<Seq<char>, Seq<char>>, values: Seq<(Seq<char>, Seq<char>)>) -> Map<
    Seq<char>,
    Seq<char>,
>
    decreases values.len(),
{
    if values.len() == 0 {
        m
    } else {
        insert_all(m, values.drop_last()).insert(values.last().0, values.last().1)
    }
}

pub open spec fn pair_views(v: Seq<(String, String)>) -> Seq<(Seq<char>, Seq<char>)> {
    v.map_values(|p: (String, String)| (p.0@, p.1@))
}

proof fn lemma_sorted_distinct(s: Seq<(String, String)>, i: int, j: int)
    requires
        sorted_entries(s),
        0 <= i < s.len(),
        0 <= j < s.len(),
        i != j,
    ensures
        s[i].0@ != s[j].0@,
{
    if i < j {
        assert(name_lt(s[i].0@, s[j].0@));
        lemma_bytes_lt_irreflexive(encode_utf8(s[i].0@));
    } else {
        assert(name_lt(s[j].0@, s[i].0@));
        lemma_bytes_lt_irreflexive(encode_utf8(s[j].0@));
    }
}

proof fn lemma_entries_map(s: Seq<(String, String)>)
    requires
        sorted_entries(s),
    ensures
        forall|k: Seq<char>|
            #[trigger] entries_map(s).contains_key(k) <==> exists|i: int|
                0 <= i < s.len() && s[i].0@ == k,
        forall|i: int| 0 <= i < s.len() ==> #[trigger] entries_map(s)[s[i].0@] == s[i].1@,
        entries_map(s).dom().finite(),
        entries_map(s).dom().len() == s.len(),
    decreases s.len(),
{
    if s.len() > 0 {
        let p = s.drop_last();
        assert(sorted_entries(p));
        lemma_entries_map(p);
        let m = entries_map(s);
        assert forall|k: Seq<char>| #[trigger] m.contains_key(k) <==> exists|i: int|
            0 <= i < s.len() && s[i].0@ == k by {
            if m.contains_key(k) && k != s.last().0@ {
                let i = choose|i: int| 0 <= i < p.len() && p[i].0@ == k;
                assert(s[i] == p[i]);
            }
            if exists|i: int| 0 <= i < s.len() && s[i].0@ == k {
                let i = choose|i: int| 0 <= i < s.len() && s[i].0@ == k;
                if i < s.len() - 1 {
                    assert(p[i] == s[i]);
                }
            }
        }
        assert forall|i: int| 0 <= i < s.len() implies #[trigger] m[s[i].0@] == s[i].1@ by {
            if i < s.len() - 1 {
                lemma_sorted_distinct(s, i, s.len() - 1);
                assert(p[i] == s[i]);
            }
        }
        assert(!entries_map(p).contains_key(s.last().0@)) by {
            if entries_map(p).contains_key(s.last().0@) {
                let i = choose|i: int| 0 <= i < p.len() && p[i].0@ == s.last().0@;
                lemma_sorted_distinct(s, i, s.len() - 1);
            }
        }
    }
}

pub(crate) enum NameOrder {
    Less,
    Equal,
    Greater,
}

proof fn lemma_order_facts(a: Seq<char>, b: Seq<char>)
    ensures
        !(name_lt(a, b) && name_lt(b, a)),
        a == b ==> !name_lt(a, b),
        encode_utf8(a) == encode_utf8(b) ==> a == b,
{
    lemma_bytes_lt_irreflexive(encode_utf8(a));
    if name_lt(a, b) {
        lemma_bytes_lt_asymmetric(encode_utf8(a), encode_utf8(b));
    }
    if encode_utf8(a) == encode_utf8(b) {
        lemma_encode_utf8_injective(a, b);
    }
}

/// Compares two names by their UTF-8 bytes.
pub(crate) fn order_names(a: &str, b: &str) -> (r: NameOrder)
    ensures
        r is Less <==> name_lt(a@, b@),
        r is Equal <==> a@ == b@,
        r is Greater <==> name_lt(b@, a@),
{
    let x = a.as_bytes();
    let y = b.as_bytes();
    let ghost ea = encode_utf8(a@);
    let ghost eb = encode_utf8(b@);
    let mut i: usize = 0;
    assert(ea.skip(0) =~= ea);
    assert(eb.skip(0) =~= eb);
    proof {
        lemma_order_facts(a@, b@);
    }
    loop
        invariant
            x@ == ea,
            y@ == eb,
            ea == encode_utf8(a@),
            eb == encode_utf8(b@),
            !(name_lt(a@, b@) && name_lt(b@, a@)),
            a@ == b@ ==> !name_lt(a@, b@),
            ea == eb ==> a@ == b@,
            i <= x@.len(),
            i <= y@.len(),
            ea.take(i as int) == eb.take(i as int),
            bytes_lt(ea, eb) == bytes_lt(ea.skip(i as int), eb.skip(i as int)),
            bytes_lt(eb, ea) == bytes_lt(eb.skip(i as int), ea.skip(i as int)),
        decreases x@.len() - i,
    {
        if i == x.len() || i == y.len() {
            if i == x.len() && i == y.len() {
                assert(ea =~= ea.take(i as int));
                assert(eb =~= eb.take(i as int));
                return NameOrder::Equal;
            } else if i == x.len() {
                assert(a@ != b@);
                return NameOrder::Less;
            } else {
                assert(a@ != b@);
                return NameOrder::Greater;
            }
        }
        assert(ea.skip(i as int)[0] == x@[i as int]);
        assert(eb.skip(i as int)[0] == y@[i as int]);
        if x[i] < y[i] {
            assert(a@ != b@);
            return NameOrder::Less;
        }
        if x[i] > y[i] {
            assert(a@ != b@);
            return NameOrder::Greater;
        }
        assert(ea.skip(i as int).drop_first() =~= ea.skip(i + 1));
        assert(eb.skip(i as int).drop_first() =~= eb.skip(i + 1));
        assert(ea.take(i + 1) =~= ea.take(i as int).push(x@[i as int]));
        assert(eb.take(i + 1) =~= eb.take(i as int).push(y@[i as int]));
        i = i + 1;
    }
}

/// The first position whose name is not below `name`, and whether it holds `name`.
fn insertion_point(entries: &Vec<(String, String)>, name: &str) -> (r: (usize, bool))
    requires
        sorted_entries(entries@),
    ensures
        r.0 <= entries@.len(),
        forall|j: int| 0 <= j < r.0 ==> name_lt(entries@[j].0@, name@),
        r.0 < entries@.len() ==> (r.1 <==> entries@[r.0 as int].0@ == name@),
        r.0 < entries@.len() && !r.1 ==> name_lt(name@, entries@[r.0 as int].0@),
        r.0 == entries@.len() ==> !r.1,
{
    let mut position: usize = 0;
    while position < entries.len()
        invariant
            position <= entries@.len(),
            forall|j: int| 0 <= j < position ==> name_lt(entries@[j].0@, name@),
        decreases entries@.len() - position,
    {
        match order_names(entries[position].0.as_str(), name) {
            NameOrder::Less => {},
            NameOrder::Equal => {
                return (position, true);
            },
            NameOrder::Greater => {
                proof {
                    lemma_order_facts(entries@[position as int].0@, name@);
                }
                return (position, false);
            },
        }
        position = position + 1;
    }
    (position, false)
}

proof fn lemma_insert_result(
    old: Seq<(String, String)>,
    new: Seq<(String, String)>,
    p: int,
    equal: bool,
    name: Seq<char>,
    value: Seq<char>,
)
    requires
        sorted_entries(old),
        0 <= p <= old.len(),
        forall|j: int| 0 <= j < p ==> name_lt(old[j].0@, name),
        p < old.len() ==> (equal <==> old[p].0@ == name),
        p < old.len() && !equal ==> name_lt(name, old[p].0@),
        p == old.len() ==> !equal,
        new == (if equal { old.remove(p) } else { old }).insert(p, new[p]),
        new[p].0@ == name,
        new[p].1@ == value,
    ensures
        sorted_entries(new),
        entries_map(new) == entries_map(old).insert(name, value),
{
    let off: int = if equal { 1 } else { 0 };
    assert(new.len() == old.len() + 1 - off);
    assert forall|i: int| 0 <= i < p implies #[trigger] new[i] == old[i] by {}
    assert forall|i: int| p < i < new.len() implies #[trigger] new[i] == old[i - 1 + off] by {}
    assert(sorted_entries(new)) by {
        assert forall|i: int, j: int| 0 <= i < j < new.len() implies name_lt(
            #[trigger] new[i].0@,
            #[trigger] new[j].0@,
        ) by {
            if j == p {
            } else if i == p {
                assert(new[j] == old[j - 1 + off]);
                if equal {
                    assert(name_lt(old[p].0@, old[j - 1 + off].0@));
                } else if j - 1 + off > p {
                    assert(name_lt(old[p].0@, old[j - 1 + off].0@));
                    lemma_bytes_lt_transitive(
                        encode_utf8(name),
                        encode_utf8(old[p].0@),
                        encode_utf8(old[j - 1 + off].0@),
                    );
                }
            } else if j < p {
                assert(new[i] == old[i]);
                assert(new[j] == old[j]);
            } else if i < p {
                assert(new[j] == old[j - 1 + off]);
                if equal && j - 1 + off == p {
                    lemma_bytes_lt_transitive(
                        encode_utf8(old[i].0@),
                        encode_utf8(name),
                        encode_utf8(old[p].0@),
                    );
                }
                if !equal || j - 1 + off != p {
                    assert(new[i] == old[i]);
                }
            } else {
                assert(new[i] == old[i - 1 + off]);
                assert(new[j] == old[j - 1 + off]);
            }
        }
    }
    lemma_entries_map(new);
    lemma_entries_map(old);
    let m_new = entries_map(new);
    let m_old = entries_map(old).insert(name, value);
    assert forall|k: Seq<char>| #[trigger] m_new.contains_key(k) <==> m_old.contains_key(k) by {
        if m_new.contains_key(k) {
            let i = choose|i: int| 0 <= i < new.len() && new[i].0@ == k;
            if i < p {
                assert(new[i] == old[i]);
            } else if i > p {
                assert(new[i] == old[i - 1 + off]);
            }
        }
        if m_old.contains_key(k) && k != name {
            let i = choose|i: int| 0 <= i < old.len() && old[i].0@ == k;
            if i < p {
                assert(new[i] == old[i]);
            } else if equal && i == p {
            } else {
                assert(new[i + 1 - off] == old[i]);
            }
        }
        if k == name {
            assert(new[p].0@ == name);
        }
    }
    assert forall|k: Seq<char>| #[trigger] m_new.contains_key(k) implies m_new[k] == m_old[k] by {
        let i = choose|i: int| 0 <= i < new.len() && new[i].0@ == k;
        if i < p {
            assert(new[i] == old[i]);
            lemma_order_facts(old[i].0@, name);
            assert(k != name);
        } else if i > p {
            assert(new[i] == old[i - 1 + off]);
            lemma_sorted_distinct(new, i, p);
            assert(k != name);
        }
    }
    assert(m_new =~= m_old);
}

proof fn lemma_same_entries(a: Seq<(String, String)>, b: Seq<(String, String)>)
    requires
        a.len() == b.len(),
        forall|i: int| 0 <= i < a.len() ==> #[trigger] b[i].0@ == a[i].0@ && b[i].1@ == a[i].1@,
    ensures
        sorted_entries(a) ==> sorted_entries(b),
        entries_map(a) == entries_map(b),
    decreases a.len(),
{
    if a.len() > 0 {
        lemma_same_entries(a.drop_last(), b.drop_last());
        assert(b[b.len() - 1].0@ == a[a.len() - 1].0@);
    }
    if sorted_entries(a) {
        assert forall|i: int, j: int| 0 <= i < j < b.len() implies name_lt(
            #[trigger] b[i].0@,
            #[trigger] b[j].0@,
        ) by {
            assert(name_lt(a[i].0@, a[j].0@));
        }
    }
}

/// A copy of the entries.
fn copy_entries(entries: &Vec<(String, String)>) -> (r: Vec<(String, String)>)
    ensures
        r@.len() == entries@.len(),
        forall|i: int| 0 <= i < r@.len() ==> #[trigger] r@[i].0@ == entries@[i].0@ && r@[i].1@ == entries@[i].1@,
{
    let mut r: Vec<(String, String)> = Vec::new();
    let mut i: usize = 0;
    while i < entries.len()
        invariant
            i <= entries@.len(),
            r@.len() == i,
            forall|j: int| 0 <= j < i ==> #[trigger] r@[j].0@ == entries@[j].0@ && r@[j].1@ == entries@[j].1@,
        decreases entries@.len() - i,
    {
        r.push((entries[i].0.clone(), entries[i].1.clone()));
        i = i + 1;
    }
    r
}

/// Named parameters captured along a matched route branch, ordered by name.
#[derive(Debug, PartialEq, Eq)]
pub struct PathParams {
    entries: Vec<(String, String)>,
}

impl View for PathParams {
    type V = Map<Seq<char>, Seq<char>>;

    closed spec fn view(&self) -> Map<Seq<char>, Seq<char>> {
        entries_map(self.entries@)
    }
}

impl Clone for PathParams {
    fn clone(&self) -> (r: PathParams)
        ensures
            r@ == self@,
    {
        proof {
            use_type_invariant(self);
        }
        let entries = copy_entries(&self.entries);
        proof {
            lemma_same_entries(self.entries@, entries@);
        }
        PathParams { entries }
    }
}

impl Default for PathParams {
    fn default() -> (r: PathParams)
        ensures
            r@ == Map::<Seq<char>, Seq<char>>::empty(),
    {
        PathParams::new()
    }
}

impl PathParams {
    #[verifier::type_invariant]
    spec fn inv(self) -> bool {
        sorted_entries(self.entries@)
    }

    /// No parameters.
    pub fn new() -> (r: PathParams)
        ensures
            r@ == Map::<Seq<char>, Seq<char>>::empty(),
    {
        PathParams { entries: Vec::new() }
    }

    /// The number of parameters.
    pub fn len(&self) -> (r: usize)
        ensures
            r == self@.dom().len(),
            self@.dom().finite(),
    {
        proof {
            use_type_invariant(self);
            lemma_entries_map(self.entries@);
        }
        self.entries.len()
    }

    /// The value captured for `name`.
    pub fn get(&self, name: &str) -> (r: Option<&str>)
        ensures
            match r {
                Some(v) => self@.contains_key(name@) && self@[name@] == v@,
                None => !self@.contains_key(name@),
            },
    {
        proof {
            use_type_invariant(self);
            lemma_entries_map(self.entries@);
        }
        let mut i: usize = 0;
        while i < self.entries.len()
            invariant
                i <= self.entries@.len(),
                forall|j: int| 0 <= j < i ==> self.entries@[j].0@ != name@,
                forall|k: Seq<char>|
                    #[trigger] self@.contains_key(k) <==> exists|j: int|
                        0 <= j < self.entries@.len() && self.entries@[j].0@ == k,
            decreases self.entries@.len() - i,
        {
            match order_names(self.entries[i].0.as_str(), name) {
                NameOrder::Equal => {
                    proof {
                        use_type_invariant(self);
                        lemma_entries_map(self.entries@);
                        assert(self@[self.entries@[i as int].0@] == self.entries@[i as int].1@);
                    }
                    return Some(self.entries[i].1.as_str());
                },
                _ => {},
            }
            i = i + 1;
        }
        None
    }

    /// Whether a value was captured for `name`.
    pub fn contains(&self, name: &str) -> (r: bool)
        ensures
            r == self@.contains_key(name@),
    {
        self.get(name).is_some()
    }

    /// The parameters in name order.
    pub fn iter(&self) -> (r: Vec<(&str, &str)>)
        ensures
            r@.len() == self@.dom().len(),
            forall|i: int|
                0 <= i < r@.len() ==> self@.contains_key(r@[i].0@) && self@[r@[i].0@]
                    == r@[i].1@,
            forall|i: int, j: int| 0 <= i < j < r@.len() ==> name_lt(r@[i].0@, r@[j].0@),
            forall|k: Seq<char>|
                #[trigger] self@.contains_key(k) ==> exists|i: int| 0 <= i < r@.len() && r@[i].0@ == k,
    {
        proof {
            use_type_invariant(self);
            lemma_entries_map(self.entries@);
        }
        let mut r: Vec<(&str, &str)> = Vec::new();
        let mut i: usize = 0;
        while i < self.entries.len()
            invariant
                i <= self.entries@.len(),
                r@.len() == i,
                forall|j: int|
                    0 <= j < i ==> r@[j].0@ == self.entries@[j].0@ && r@[j].1@
                        == self.entries@[j].1@,
            decreases self.entries@.len() - i,
        {
            r.push((self.entries[i].0.as_str(), self.entries[i].1.as_str()));
            i = i + 1;
        }
        proof {
            assert forall|k: Seq<char>| #[trigger] self@.contains_key(k) implies exists|i: int|
                0 <= i < r@.len() && r@[i].0@ == k by {
                let j = choose|j: int| 0 <= j < self.entries@.len() && self.entries@[j].0@ == k;
                assert(r@[j].0@ == k);
            }
        }
        r
    }

    /// Whether there are no parameters.
    pub fn is_empty(&self) -> (r: bool)
        ensures
            r == (self@.dom().len() == 0),
            self@.dom().finite(),
    {
        self.len() == 0
    }

    /// Sets `name` to `value`.
    fn insert(&mut self, name: String, value: String)
        ensures
            final(self)@ == old(self)@.insert(name@, value@),
    {
        proof {
            use_type_invariant(&*self);
            lemma_entries_map(self.entries@);
        }
        let ghost old_entries = self.entries@;
        let (position, equal) = insertion_point(&self.entries, name.as_str());
        let ghost p = position as int;
        let ghost name_view = name@;
        let ghost value_view = value@;
        let mut entries = copy_entries(&self.entries);
        let ghost copied = entries@;
        proof {
            lemma_same_entries(old_entries, copied);
            assert forall|j: int| 0 <= j < p implies name_lt(copied[j].0@, name_view) by {
                assert(copied[j].0@ == old_entries[j].0@);
            }
            if p < old_entries.len() {
                assert(copied[p].0@ == old_entries[p].0@);
            }
        }
        if equal {
            entries.remove(position);
        }
        entries.insert(position, (name, value));
        proof {
            lemma_insert_result(copied, entries@, p, equal, name_view, value_view);
        }
        self.entries = entries;
    }

    /// Adds all `values` when none of their names is present yet; otherwise changes
    /// nothing and returns `false`.
    pub fn extend(&mut self, values: Vec<(String, String)>) -> (r: bool)
        ensures
            r == !(exists|i: int|
                0 <= i < values@.len() && old(self)@.contains_key(#[trigger] values@[i].0@)),
            r ==> final(self)@ == insert_all(old(self)@, pair_views(values@)),
            !r ==> final(self)@ == old(self)@,
    {
        let mut i: usize = 0;
        while i < values.len()
            invariant
                i <= values@.len(),
                forall|j: int| 0 <= j < i ==> !self@.contains_key(#[trigger] values@[j].0@),
            decreases values@.len() - i,
        {
            if self.contains(values[i].0.as_str()) {
                return false;
            }
            i = i + 1;
        }
        let ghost start = self@;
        let ghost pv = pair_views(values@);
        let mut values = values;
        let mut taken: Vec<(String, String)> = Vec::new();
        let ghost all = values@;
        // Insert in the initial order.
        let mut k: usize = 0;
        let n = values.len();
        assert(pv.take(0) =~= Seq::<(Seq<char>, Seq<char>)>::empty());
        while k < n
            invariant
                n == all.len(),
                pv == pair_views(all),
                values@ == all,
                k <= n,
                self@ == insert_all(start, pv.take(k as int)),
            decreases n - k,
        {
            let name = values[k].0.clone();
            let value = values[k].1.clone();
            self.insert(name, value);
            assert(pv.take(k + 1).drop_last() =~= pv.take(k as int));
            k = k + 1;
        }
        assert(pv.take(n as int) =~= pv);
        true
    }
}

} // verus!
