//! Element and text records, and the id/class cache that an element keeps of its attributes.
use vstd::prelude::*;
use crate::shared::{SharedNode, WeakNode};
use crate::text::{
    chars_of, copy_range, lower, lower_string_of, lowercase, trim_bounds, trimmed,
    string_of,
};

verus! {

/// An attribute list: (key, value) pairs.
pub type Attributes = Seq<(Seq<char>, Seq<char>)>;

/// The key `k` stands in the list.
pub open spec fn has_key(a: Attributes, k: Seq<char>) -> bool {
    exists|i: int| 0 <= i < a.len() && #[trigger] a[i].0 == k
}

/// Where the key `k` stands in the list (meaningful when it does).
pub open spec fn key_index(a: Attributes, k: Seq<char>) -> int {
    choose|i: int| 0 <= i < a.len() && #[trigger] a[i].0 == k
}

/// No key stands twice.
pub open spec fn keys_unique(a: Attributes) -> bool {
    forall|i: int, j: int| 0 <= i < a.len() && 0 <= j < a.len() && #[trigger] a[i].0 == #[trigger] a[j].0 ==> i == j
}

/// Every key is in ASCII lowercase.
pub open spec fn keys_lowercase(a: Attributes) -> bool {
    forall|i: int| 0 <= i < a.len() ==> lower(#[trigger] a[i].0) == a[i].0
}

/// The value stored under `k`.
pub open spec fn lookup(a: Attributes, k: Seq<char>) -> Option<Seq<char>> {
    if has_key(a, k) {
        Some(a[key_index(a, k)].1)
    } else {
        None
    }
}

/// The list once `k` is given the value `v`, or removed when `v` is `None`. An existing key
/// keeps its place; a new one goes at the end.
pub open spec fn with_attribute(a: Attributes, k: Seq<char>, v: Option<Seq<char>>) -> Attributes {
    match v {
        Some(v) => if has_key(a, k) {
            a.update(key_index(a, k), (k, v))
        } else {
            a.push((k, v))
        },
        None => if has_key(a, k) {
            a.remove(key_index(a, k))
        } else {
            a
        },
    }
}

pub open spec fn id_key() -> Seq<char> {
    seq!['i', 'd']
}

pub open spec fn class_key() -> Seq<char> {
    seq!['c', 'l', 'a', 's', 's']
}

/// The id that a value of the `id` attribute gives: the value without surrounding
/// whitespace, if anything is left.
pub open spec fn id_of(value: Seq<char>) -> Option<Seq<char>> {
    if trimmed(value).len() > 0 {
        Some(trimmed(value))
    } else {
        None
    }
}

/// The lowercase form of `v[a..b]`, as a set of at most one class (none if the piece is empty).
pub open spec fn piece(v: Seq<char>, a: int, b: int) -> Set<Seq<char>> {
    if a < b {
        set![lower(v.subrange(a, b))]
    } else {
        Set::empty()
    }
}

/// The classes of `v[start..]`, where `v[start..i]` holds no space: the lowercase pieces
/// between spaces, empty pieces left out.
pub open spec fn class_tokens(v: Seq<char>, start: int, i: int) -> Set<Seq<char>>
    decreases v.len() - i,
{
    if i >= v.len() {
        piece(v, start, v.len() as int)
    } else if v[i] == ' ' {
        piece(v, start, i).union(class_tokens(v, i + 1, i + 1))
    } else {
        class_tokens(v, start, i + 1)
    }
}

/// The classes that a value of the `class` attribute gives: the value without surrounding
/// whitespace, split on spaces, each piece in lowercase, empty pieces left out.
pub open spec fn classes_of(value: Seq<char>) -> Set<Seq<char>> {
    class_tokens(trimmed(value), 0, 0)
}

/// The id that an attribute list gives.
pub open spec fn cached_id(a: Attributes) -> Option<Seq<char>> {
    match lookup(a, id_key()) {
        Some(v) => id_of(v),
        None => None,
    }
}

/// The classes that an attribute list gives.
pub open spec fn cached_classes(a: Attributes) -> Set<Seq<char>> {
    match lookup(a, class_key()) {
        Some(v) => classes_of(v),
        None => Set::empty(),
    }
}

pub open spec fn opt_view(o: Option<String>) -> Option<Seq<char>> {
    match o {
        Some(s) => Some(s@),
        None => None,
    }
}

pub open spec fn opt_str_view(o: Option<&str>) -> Option<Seq<char>> {
    match o {
        Some(s) => Some(s@),
        None => None,
    }
}

/// The set of the strings' views.
pub open spec fn string_set(v: Seq<String>) -> Set<Seq<char>> {
    Set::new(|t: Seq<char>| exists|k: int| 0 <= k < v.len() && #[trigger] v[k]@ == t)
}

/// No two strings have the same view.
pub open spec fn strings_distinct(v: Seq<String>) -> bool {
    forall|i: int, j: int| 0 <= i < v.len() && 0 <= j < v.len() && #[trigger] v[i]@ == #[trigger] v[j]@ ==> i == j
}

/// Derived lookup state of an element. It is kept equal to what its attributes give.
pub struct ElementNodeCache {
    pub id: Option<String>,
    pub classes: Vec<String>,
}

/// What an element is, apart from its cache.
pub struct ElementView {
    pub tag: Seq<char>,
    pub attributes: Attributes,
    pub children: Seq<usize>,
    pub parent: Option<usize>,
}

impl ElementView {
    pub open spec fn with_attribute(self, k: Seq<char>, v: Option<Seq<char>>) -> ElementView {
        ElementView { attributes: with_attribute(self.attributes, k, v), ..self }
    }
}

pub struct ElementNode {
    pub tag_name: String,
    pub attributes: Vec<(String, String)>,
    pub cache: ElementNodeCache,
    pub children: Vec<SharedNode>,
    pub parent: Option<WeakNode>,
}

pub open spec fn attributes_view(a: Seq<(String, String)>) -> Attributes {
    a.map_values(|p: (String, String)| (p.0@, p.1@))
}

pub open spec fn parent_view(p: Option<WeakNode>) -> Option<usize> {
    match p {
        Some(w) => Some(w.0),
        None => None,
    }
}

impl View for ElementNode {
    type V = ElementView;

    open spec fn view(&self) -> ElementView {
        ElementView {
            tag: self.tag_name@,
            attributes: attributes_view(self.attributes@),
            children: self.children@.map_values(|c: SharedNode| c.0),
            parent: parent_view(self.parent),
        }
    }
}

impl ElementNode {
    pub open spec fn id_view(&self) -> Option<Seq<char>> {
        opt_view(self.cache.id)
    }

    pub open spec fn classes_view(&self) -> Set<Seq<char>> {
        string_set(self.cache.classes@)
    }

    /// Keys are unique and lowercase, and the cache is what the attributes give.
    pub open spec fn wf(&self) -> bool {
        &&& keys_unique(self@.attributes)
        &&& keys_lowercase(self@.attributes)
        &&& self.id_view() == cached_id(self@.attributes)
        &&& self.classes_view() == cached_classes(self@.attributes)
        &&& strings_distinct(self.cache.classes@)
    }

    /// A detached element with an empty tag, no attributes and no children.
    pub fn new() -> (r: ElementNode)
        ensures
            r.wf(),
            r@ == (ElementView {
                tag: Seq::empty(),
                attributes: Seq::empty(),
                children: Seq::empty(),
                parent: None,
            }),
    {
        let r = ElementNode {
            tag_name: String::new(),
            attributes: Vec::new(),
            cache: ElementNodeCache { id: None, classes: Vec::new() },
            children: Vec::new(),
            parent: None,
        };
        assert(r@.attributes =~= Seq::empty());
        assert(r@.children =~= Seq::empty());
        assert(r.classes_view() =~= Set::empty());
        r
    }

    /// A detached element with the given tag, no attributes and no children.
    pub fn new_with_tag(tag: String) -> (r: ElementNode)
        ensures
            r.wf(),
            r@ == (ElementView {
                tag: tag@,
                attributes: Seq::empty(),
                children: Seq::empty(),
                parent: None,
            }),
    {
        let mut this = Self::new();
        this.set_tag(tag);
        this
    }

    /// A detached element with the given tag, and the attributes written one after the
    /// other as `set_attribute` writes them: keys in lowercase, a later key over an
    /// earlier equal one.
    pub fn new_with_tag_and_attributes(tag: String, attributes: Vec<(String, String)>) -> (r:
        ElementNode)
        ensures
            r.wf(),
            r@ == (ElementView {
                tag: tag@,
                attributes: written(Seq::empty(), attributes_view(attributes@)),
                children: Seq::empty(),
                parent: None,
            }),
    {
        let mut this = Self::new_with_tag(tag);
        let mut i: usize = 0;
        while i < attributes.len()
            invariant
                i <= attributes.len(),
                this.wf(),
                this@.tag == tag@,
                this@.children == Seq::<usize>::empty(),
                this@.parent == None::<usize>,
                this@.attributes == written(
                    Seq::empty(),
                    attributes_view(attributes@).take(i as int),
                ),
            decreases attributes.len() - i,
        {
            let (k, v) = (&attributes[i].0, &attributes[i].1);
            this.set_attribute(k.as_str(), Some(v.clone()));
            proof {
                let av = attributes_view(attributes@);
                assert(av.take(i + 1).drop_last() =~= av.take(i as int));
            }
            i = i + 1;
        }
        assert(attributes_view(attributes@).take(i as int) =~= attributes_view(attributes@));
        this
    }

    /// Replaces the tag name.
    pub fn set_tag(&mut self, tag: String)
        requires
            old(self).wf(),
        ensures
            final(self).wf(),
            final(self)@ == (ElementView { tag: tag@, ..old(self)@ }),
    {
        self.tag_name = tag;
    }

    fn find_key(&self, key: &String) -> (r: Option<usize>)
        requires
            keys_unique(self@.attributes),
        ensures
            match r {
                Some(i) => has_key(self@.attributes, key@) && i == key_index(
                    self@.attributes,
                    key@,
                ),
                None => !has_key(self@.attributes, key@),
            },
    {
        let ghost a = self@.attributes;
        let mut i: usize = 0;
        while i < self.attributes.len()
            invariant
                i <= self.attributes.len(),
                a == self@.attributes,
                keys_unique(a),
                forall|j: int| 0 <= j < i ==> #[trigger] a[j].0 != key@,
            decreases self.attributes.len() - i,
        {
            if self.attributes[i].0 == *key {
                assert(a[i as int].0 == key@);
                assert(has_key(a, key@));
                let ghost j = key_index(a, key@);
                assert(a[j].0 == key@);
                assert(a[i as int].0 == a[j].0);
                assert(keys_unique(a));
                assert(i as int == j);
                return Some(i);
            }
            i = i + 1;
        }
        None
    }

    /// The value of the attribute `name`, compared without regard to ASCII case.
    pub fn attribute(&self, name: &str) -> (r: Option<&str>)
        requires
            self.wf(),
        ensures
            opt_str_view(r) == lookup(self@.attributes, lower(name@)),
    {
        let key = lowercase(name);
        match self.find_key(&key) {
            Some(i) => Some(self.attributes[i].1.as_str()),
            None => None,
        }
    }

    /// The cached id.
    pub fn id(&self) -> (r: Option<&str>)
        requires
            self.wf(),
        ensures
            opt_str_view(r) == cached_id(self@.attributes),
    {
        match &self.cache.id {
            Some(s) => Some(s.as_str()),
            None => None,
        }
    }

    /// The cached classes, each once.
    pub fn classes(&self) -> (r: &Vec<String>)
        requires
            self.wf(),
        ensures
            string_set(r@) == cached_classes(self@.attributes),
            strings_distinct(r@),
    {
        &self.cache.classes
    }

    /// Writes (or, with `None`, removes) the attribute `key`, in ASCII lowercase, and brings
    /// the cache up to date.
    pub fn set_attribute(&mut self, key: &str, value: Option<String>)
        requires
            old(self).wf(),
        ensures
            final(self).wf(),
            final(self)@ == old(self)@.with_attribute(lower(key@), opt_view(value)),
    {
        let lc_key = lowercase(key);
        let ghost a0 = self@.attributes;
        let ghost k = lc_key@;
        proof {
            lemma_lower_idempotent(key@);
        }
        let found = self.find_key(&lc_key);
        match value {
            Some(value) => {
                let prev: Option<String>;
                match found {
                    Some(i) => {
                        prev = Some(self.attributes[i].1.clone());
                        self.attributes[i] = (lc_key.clone(), value.clone());
                    },
                    None => {
                        self.attributes.push((lc_key.clone(), value.clone()));
                        prev = None;
                    },
                }
                proof {
                    lemma_with_attribute(a0, k, Some(value@));
                    assert(self@.attributes =~= with_attribute(a0, k, Some(value@)));
                }
                let prev_str = match &prev {
                    Some(p) => Some(p.as_str()),
                    None => None,
                };
                self.process_attribute_change(&lc_key, Some(value.as_str()), prev_str, Ghost(a0));
            },
            None => {
                let prev: Option<String>;
                match found {
                    Some(i) => {
                        let old_pair = self.attributes.remove(i);
                        prev = Some(old_pair.1);
                    },
                    None => {
                        prev = None;
                    },
                }
                proof {
                    lemma_with_attribute(a0, k, None);
                    assert(self@.attributes =~= with_attribute(a0, k, None));
                }
                let prev_str = match &prev {
                    Some(p) => Some(p.as_str()),
                    None => None,
                };
                self.process_attribute_change(&lc_key, None, prev_str, Ghost(a0));
            },
        }
    }

    /// Brings the cache up to date after the attribute `key` went from `prev` to `to`.
    fn process_attribute_change(
        &mut self,
        key: &String,
        to: Option<&str>,
        prev: Option<&str>,
        Ghost(before): Ghost<Attributes>,
    )
        requires
            keys_unique(old(self)@.attributes),
            keys_lowercase(old(self)@.attributes),
            strings_distinct(old(self).cache.classes@),
            old(self).id_view() == cached_id(before),
            old(self).classes_view() == cached_classes(before),
            lookup(before, key@) == opt_str_view(prev),
            lookup(old(self)@.attributes, key@) == opt_str_view(to),
            forall|k2: Seq<char>|
                k2 != key@ ==> lookup(old(self)@.attributes, k2) == lookup(before, k2),
        ensures
            final(self).wf(),
            final(self)@ == old(self)@,
    {
        let ghost a = self@.attributes;
        let same = match (to, prev) {
            (Some(t), Some(p)) => str_eq(t, p),
            (None, None) => true,
            _ => false,
        };
        if same {
            assert(lookup(a, key@) == lookup(before, key@));
            assert(lookup(a, id_key()) == lookup(before, id_key()));
            assert(lookup(a, class_key()) == lookup(before, class_key()));
            return;
        }
        if is_class_key(key) {
            self.cache.classes = match to {
                Some(t) => class_set(t),
                None => Vec::new(),
            };
            assert(key@ != id_key());
            assert(lookup(a, id_key()) == lookup(before, id_key()));
            proof {
                if to is None {
                    assert(string_set(self.cache.classes@) =~= Set::empty());
                }
            }
        } else if is_id_key(key) {
            self.cache.id = match to {
                Some(t) => id_value(t),
                None => None,
            };
            assert(key@ != class_key());
            assert(lookup(a, class_key()) == lookup(before, class_key()));
        } else {
            assert(lookup(a, id_key()) == lookup(before, id_key()));
            assert(lookup(a, class_key()) == lookup(before, class_key()));
        }
    }
}

/// The list once each pair of `items` is written in turn.
pub open spec fn written(a: Attributes, items: Attributes) -> Attributes
    decreases items.len(),
{
    if items.len() == 0 {
        a
    } else {
        let last = items.last();
        with_attribute(written(a, items.drop_last()), lower(last.0), Some(last.1))
    }
}

pub proof fn lemma_lower_idempotent(s: Seq<char>)
    ensures
        lower(lower(s)) == lower(s),
{
    assert(lower(lower(s)) =~= lower(s));
}

/// What writing a key does to lookups, uniqueness and lowercase keys.
pub proof fn lemma_with_attribute(a: Attributes, k: Seq<char>, v: Option<Seq<char>>)
    requires
        keys_unique(a),
    ensures
        keys_unique(with_attribute(a, k, v)),
        keys_lowercase(a) && lower(k) == k ==> keys_lowercase(with_attribute(a, k, v)),
        lookup(with_attribute(a, k, v), k) == v,
        forall|k2: Seq<char>| k2 != k ==> lookup(with_attribute(a, k, v), k2) == lookup(a, k2),
{
    match v {
        Some(val) => lemma_write_some(a, k, val),
        None => lemma_write_none(a, k),
    }
}

proof fn lemma_lookup_at(a: Attributes, i: int)
    requires
        keys_unique(a),
        0 <= i < a.len(),
    ensures
        lookup(a, a[i].0) == Some(a[i].1),
{
    let k = a[i].0;
    assert(has_key(a, k));
    let j = key_index(a, k);
    assert(a[j].0 == k);
}

proof fn lemma_write_some(a: Attributes, k: Seq<char>, val: Seq<char>)
    requires
        keys_unique(a),
    ensures
        keys_unique(with_attribute(a, k, Some(val))),
        keys_lowercase(a) && lower(k) == k ==> keys_lowercase(with_attribute(a, k, Some(val))),
        lookup(with_attribute(a, k, Some(val)), k) == Some(val),
        forall|k2: Seq<char>|
            k2 != k ==> lookup(with_attribute(a, k, Some(val)), k2) == lookup(a, k2),
{
    let r = with_attribute(a, k, Some(val));
    let found = has_key(a, k);
    let i = if found { key_index(a, k) } else { a.len() as int };
    if found {
        assert(a[i].0 == k);
    }
    assert(r.len() == if found { a.len() } else { a.len() + 1 });
    assert(forall|j: int| 0 <= j < r.len() && j != i ==> r[j] == a[j]);
    assert(r[i] == (k, val));
    assert forall|x: int, y: int|
        0 <= x < r.len() && 0 <= y < r.len() && #[trigger] r[x].0 == #[trigger] r[y].0 implies x
        == y by {
        if x != i && y == i {
            assert(a[x].0 == k);
        } else if x == i && y != i {
            assert(a[y].0 == k);
        }
    }
    lemma_lookup_at(r, i);
    assert forall|k2: Seq<char>| k2 != k implies lookup(r, k2) == lookup(a, k2) by {
        if has_key(a, k2) {
            let j = key_index(a, k2);
            assert(a[j].0 == k2);
            lemma_lookup_at(a, j);
            lemma_lookup_at(r, j);
        } else if has_key(r, k2) {
            let j = key_index(r, k2);
            assert(r[j].0 == k2);
            assert(a[j].0 == k2);
        }
    }
}

proof fn lemma_write_none(a: Attributes, k: Seq<char>)
    requires
        keys_unique(a),
    ensures
        keys_unique(with_attribute(a, k, None)),
        keys_lowercase(a) ==> keys_lowercase(with_attribute(a, k, None)),
        lookup(with_attribute(a, k, None), k) == None::<Seq<char>>,
        forall|k2: Seq<char>|
            k2 != k ==> lookup(with_attribute(a, k, None), k2) == lookup(a, k2),
{
    let r = with_attribute(a, k, None);
    if has_key(a, k) {
        let i = key_index(a, k);
        assert(a[i].0 == k);
        assert(forall|j: int| 0 <= j < i ==> r[j] == a[j]);
        assert(forall|j: int| i <= j < r.len() ==> r[j] == a[j + 1]);
        assert forall|x: int, y: int|
            0 <= x < r.len() && 0 <= y < r.len() && #[trigger] r[x].0 == #[trigger] r[y].0 implies x
            == y by {
            let x1 = if x < i { x } else { x + 1 };
            let y1 = if y < i { y } else { y + 1 };
            assert(a[x1].0 == a[y1].0);
        }
        assert forall|j: int| 0 <= j < r.len() implies r[j].0 != k by {
            let j1 = if j < i { j } else { j + 1 };
            assert(a[j1].0 == a[i].0 ==> j1 == i);
        }
        assert forall|j: int| 0 <= j < r.len() && keys_lowercase(a) implies lower(#[trigger] r[j].0)
            == r[j].0 by {
            let j1 = if j < i { j } else { j + 1 };
            assert(r[j] == a[j1]);
        }
        assert forall|k2: Seq<char>| k2 != k implies lookup(r, k2) == lookup(a, k2) by {
            if has_key(a, k2) {
                let j = key_index(a, k2);
                assert(a[j].0 == k2);
                lemma_lookup_at(a, j);
                let j2 = if j < i { j } else { j - 1 };
                assert(r[j2] == a[j]);
                lemma_lookup_at(r, j2);
            } else if has_key(r, k2) {
                let j = key_index(r, k2);
                assert(r[j].0 == k2);
                let j1 = if j < i { j } else { j + 1 };
                assert(a[j1].0 == k2);
            }
        }
        if has_key(r, k) {
            let j = key_index(r, k);
            assert(r[j].0 == k);
        }
    }
}

fn str_eq(a: &str, b: &str) -> (r: bool)
    ensures
        r == (a@ == b@),
{
    let x = chars_of(a);
    let y = chars_of(b);
    if x.len() != y.len() {
        return false;
    }
    let mut i: usize = 0;
    while i < x.len()
        invariant
            i <= x.len() == y.len(),
            x@ == a@,
            y@ == b@,
            forall|j: int| 0 <= j < i ==> x@[j] == y@[j],
        decreases x.len() - i,
    {
        if x[i] != y[i] {
            return false;
        }
        i = i + 1;
    }
    assert(x@ =~= y@);
    true
}

fn is_id_key(key: &String) -> (r: bool)
    ensures
        r == (key@ == id_key()),
{
    let v = chars_of(key.as_str());
    let r = v.len() == 2 && v[0] == 'i' && v[1] == 'd';
    assert(r ==> v@ =~= id_key());
    r
}

fn is_class_key(key: &String) -> (r: bool)
    ensures
        r == (key@ == class_key()),
{
    let v = chars_of(key.as_str());
    let r = v.len() == 5 && v[0] == 'c' && v[1] == 'l' && v[2] == 'a' && v[3] == 's' && v[4]
        == 's';
    assert(r ==> v@ =~= class_key());
    r
}

/// The id that a value of the `id` attribute gives.
fn id_value(value: &str) -> (r: Option<String>)
    ensures
        opt_view(r) == id_of(value@),
{
    let v = chars_of(value);
    let (lo, hi) = trim_bounds(&v);
    if lo < hi {
        Some(string_of(&v, lo, hi))
    } else {
        None
    }
}

/// Adds the lowercase piece `v[a..b]` to `out`, unless it is empty or already there.
fn add_piece(out: &mut Vec<String>, v: &Vec<char>, a: usize, b: usize)
    requires
        a <= b <= v.len(),
        strings_distinct(old(out)@),
    ensures
        strings_distinct(final(out)@),
        string_set(final(out)@) == string_set(old(out)@).union(piece(v@, a as int, b as int)),
{
    if a < b {
        let s = lower_string_of(v, a, b);
        let mut i: usize = 0;
        while i < out.len()
            invariant
                i <= out.len(),
                a < b <= v.len(),
                s@ == lower(v@.subrange(a as int, b as int)),
                strings_distinct(old(out)@),
                out@ == old(out)@,
                forall|j: int| 0 <= j < i ==> #[trigger] out@[j]@ != s@,
            decreases out.len() - i,
        {
            if out[i] == s {
                assert(out@[i as int]@ == s@);
                assert(string_set(out@).contains(s@));
                assert(strings_distinct(out@));
                assert(string_set(out@) =~= string_set(out@).union(piece(v@, a as int, b as int)));
                return;
            }
            i = i + 1;
        }
        let ghost before = out@;
        out.push(s);
        assert(out@[before.len() as int]@ == s@);
        assert forall|t: Seq<char>| #[trigger] string_set(out@).contains(t) implies string_set(
            before,
        ).contains(t) || t == s@ by {
            let k = choose|k: int| 0 <= k < out@.len() && #[trigger] out@[k]@ == t;
            if k < before.len() {
                assert(before[k]@ == t);
            }
        }
        assert forall|t: Seq<char>| #[trigger] string_set(before).contains(t) implies string_set(
            out@,
        ).contains(t) by {
            let k = choose|k: int| 0 <= k < before.len() && #[trigger] before[k]@ == t;
            assert(out@[k]@ == t);
        }
        assert(string_set(out@) =~= string_set(before).union(piece(v@, a as int, b as int)));
    } else {
        assert(string_set(out@) =~= string_set(out@).union(piece(v@, a as int, b as int)));
    }
}

/// The classes that a value of the `class` attribute gives, each once.
fn class_set(value: &str) -> (r: Vec<String>)
    ensures
        string_set(r@) == classes_of(value@),
        strings_distinct(r@),
{
    let all = chars_of(value);
    let (lo, hi) = trim_bounds(&all);
    let t = copy_range(&all, lo, hi);
    let mut out: Vec<String> = Vec::new();
    let mut start: usize = 0;
    let mut i: usize = 0;
    assert(string_set(out@) =~= Set::empty());
    assert(string_set(out@).union(class_tokens(t@, 0, 0)) =~= class_tokens(t@, 0, 0));
    while i < t.len()
        invariant
            start <= i <= t.len(),
            t@ == trimmed(value@),
            strings_distinct(out@),
            string_set(out@).union(class_tokens(t@, start as int, i as int)) == class_tokens(
                t@,
                0,
                0,
            ),
        decreases t.len() - i,
    {
        if t[i] == ' ' {
            let ghost before = string_set(out@);
            add_piece(&mut out, &t, start, i);
            assert(string_set(out@).union(class_tokens(t@, i + 1, i + 1)) =~= before.union(
                class_tokens(t@, start as int, i as int),
            ));
            start = i + 1;
        }
        i = i + 1;
    }
    let ghost before = string_set(out@);
    add_piece(&mut out, &t, start, t.len());
    assert(string_set(out@) =~= before.union(class_tokens(t@, start as int, i as int)));
    out
}

pub struct TextView {
    pub text: Seq<char>,
    pub parent: Option<usize>,
}

/// A leaf holding literal text.
pub struct TextNode {
    pub text: String,
    pub parent: Option<WeakNode>,
}

impl View for TextNode {
    type V = TextView;

    open spec fn view(&self) -> TextView {
        TextView { text: self.text@, parent: parent_view(self.parent) }
    }
}

impl TextNode {
    /// A detached text node.
    pub fn new(text: String) -> (r: TextNode)
        ensures
            r@ == (TextView { text: text@, parent: None }),
    {
        TextNode { text, parent: None }
    }
}

pub enum NodeView {
    Element(ElementView),
    Text(TextView),
}

impl NodeView {
    pub open spec fn parent(self) -> Option<usize> {
        match self {
            NodeView::Element(e) => e.parent,
            NodeView::Text(t) => t.parent,
        }
    }

    pub open spec fn with_parent(self, p: Option<usize>) -> NodeView {
        match self {
            NodeView::Element(e) => NodeView::Element(ElementView { parent: p, ..e }),
            NodeView::Text(t) => NodeView::Text(TextView { parent: p, ..t }),
        }
    }

    pub open spec fn children(self) -> Seq<usize> {
        match self {
            NodeView::Element(e) => e.children,
            NodeView::Text(_) => Seq::empty(),
        }
    }
}

/// A tree node: an element, which may have children, or a text leaf.
pub enum Node {
    Element(ElementNode),
    Text(TextNode),
}

impl View for Node {
    type V = NodeView;

    open spec fn view(&self) -> NodeView {
        match self {
            Node::Element(e) => NodeView::Element(e@),
            Node::Text(t) => NodeView::Text(t@),
        }
    }
}

impl Node {
    /// An element's cache agrees with its attributes.
    pub open spec fn wf(&self) -> bool {
        match self {
            Node::Element(e) => e.wf(),
            Node::Text(_) => true,
        }
    }

    /// The parent link.
    pub fn parent(&self) -> (r: Option<&WeakNode>)
        ensures
            match r {
                Some(w) => self@.parent() == Some(w.0),
                None => self@.parent() is None,
            },
    {
        match self {
            Node::Element(element) => element.parent.as_ref(),
            Node::Text(text) => text.parent.as_ref(),
        }
    }

    /// Replaces the parent link of this node value.
    pub fn set_parent(&mut self, parent: Option<WeakNode>)
        requires
            old(self).wf(),
        ensures
            final(self).wf(),
            final(self)@ == old(self)@.with_parent(parent_view(parent)),
    {
        match self {
            Node::Element(element) => element.parent = parent,
            Node::Text(text) => text.parent = parent,
        }
    }
}

} // verus!
