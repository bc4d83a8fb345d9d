use vstd::prelude::*;
use vstd::string::StrSliceExecFns;

verus! {

// ------------------------------------------------------------------
// One exported trait record.
// ------------------------------------------------------------------

/// One exported trait: its display name, the file it came from, the
/// resolved MIME type, the encoded contents, the rarity suffix as it stood
/// in the file name (none meaning the default weight), and the category's
/// order hint.
#[derive(Debug, PartialEq, Eq)]
pub struct TraitRecord {
    pub name: String,
    pub filename: String,
    pub mime_type: String,
    pub data: String,
    pub rarity: Option<String>,
    pub order: u32,
}

/// The mathematical image of a trait record.
pub ghost struct TraitView {
    pub name: Seq<char>,
    pub filename: Seq<char>,
    pub mime_type: Seq<char>,
    pub data: Seq<char>,
    pub rarity: Option<Seq<char>>,
    pub order: u32,
}

impl View for TraitRecord {
    type V = TraitView;

    open spec fn view(&self) -> TraitView {
        TraitView {
            name: self.name@,
            filename: self.filename@,
            mime_type: self.mime_type@,
            data: self.data@,
            rarity: match self.rarity {
                Option::Some(s) => Option::Some(s@),
                Option::None => Option::None,
            },
            order: self.order,
        }
    }
}

// ------------------------------------------------------------------
// Lexicographic order on category keys, the order `BTreeMap<String, _>`
// iterates in (code point order, which UTF-8 byte order preserves).
// ------------------------------------------------------------------

pub open spec fn lex_lt(a: Seq<char>, b: Seq<char>) -> bool
    decreases a.len(),
{
    if b.len() == 0 {
        false
    } else if a.len() == 0 {
        true
    } else if a[0] < b[0] {
        true
    } else if b[0] < a[0] {
        false
    } else {
        lex_lt(a.skip(1), b.skip(1))
    }
}

/// Any two keys are ordered one way, the other way, or equal.
pub proof fn lemma_lex_total(a: Seq<char>, b: Seq<char>)
    ensures
        lex_lt(a, b) || lex_lt(b, a) || a == b,
    decreases a.len(),
{
    if b.len() == 0 {
        if a.len() == 0 {
            assert(a =~= b);
        }
    } else if a.len() == 0 {
    } else if a[0] < b[0] {
    } else if b[0] < a[0] {
    } else {
        lemma_lex_total(a.skip(1), b.skip(1));
        if !lex_lt(a.skip(1), b.skip(1)) && !lex_lt(b.skip(1), a.skip(1)) {
            assert(a.skip(1) == b.skip(1));
            assert(a =~= b) by {
                assert(a.len() == b.len());
                assert(forall|j: int|
                    1 <= j < a.len() ==> a[j] == a.skip(1)[j - 1] && b[j] == b.skip(1)[j - 1]);
            }
        }
    }
}

/// The order is transitive.
pub proof fn lemma_lex_trans(a: Seq<char>, b: Seq<char>, c: Seq<char>)
    requires
        lex_lt(a, b),
        lex_lt(b, c),
    ensures
        lex_lt(a, c),
    decreases a.len(),
{
    if c.len() == 0 {
    } else if b.len() == 0 {
    } else if a.len() == 0 {
    } else {
        if !(a[0] < c[0])  {
            assert(a[0] == b[0] && b[0] == c[0]);
            lemma_lex_trans(a.skip(1), b.skip(1), c.skip(1));
        }
    }
}

/// Lexicographic comparison of two strings by code points.
pub fn str_lex_lt(a: &str, b: &str) -> (r: bool)
    ensures
        r == lex_lt(a@, b@),
{
    let na: usize = a.unicode_len();
    let nb: usize = b.unicode_len();
    let mut i: usize = 0;
    proof {
        assert(a@.skip(0) =~= a@);
        assert(b@.skip(0) =~= b@);
    }
    while i < na && i < nb
        invariant
            0 <= i <= na,
            0 <= i <= nb,
            na == a@.len(),
            nb == b@.len(),
            lex_lt(a@, b@) == lex_lt(a@.skip(i as int), b@.skip(i as int)),
        decreases na - i,
    {
        let ca: char = a.get_char(i);
        let cb: char = b.get_char(i);
        proof {
            assert(a@.skip(i as int)[0] == a@[i as int]);
            assert(b@.skip(i as int)[0] == b@[i as int]);
        }
        if ca < cb {
            return true;
        }
        if cb < ca {
            return false;
        }
        proof {
            assert(a@.skip(i as int).skip(1) =~= a@.skip(i + 1));
            assert(b@.skip(i as int).skip(1) =~= b@.skip(i + 1));
        }
        i = i + 1;
    }
    proof {
        if i == na {
            assert(a@.skip(i as int).len() == 0);
        } else {
            assert(b@.skip(i as int).len() == 0);
        }
    }
    i == na && i < nb
}

// ------------------------------------------------------------------
// The category table: category keys in sorted order, each with the records
// collected for it in arrival order.
// ------------------------------------------------------------------

/// One category with its records.
#[derive(Debug, PartialEq, Eq)]
pub struct CategoryEntry {
    pub name: String,
    pub records: Vec<TraitRecord>,
}

impl View for CategoryEntry {
    type V = (Seq<char>, Seq<TraitView>);

    open spec fn view(&self) -> (Seq<char>, Seq<TraitView>) {
        (self.name@, self.records@.map(|j: int, r: TraitRecord| r@))
    }
}

/// The accumulated output: categories in strictly increasing key order.
#[derive(Debug, PartialEq, Eq)]
pub struct TraitsMap {
    pub entries: Vec<CategoryEntry>,
}

impl View for TraitsMap {
    type V = Seq<(Seq<char>, Seq<TraitView>)>;

    open spec fn view(&self) -> Seq<(Seq<char>, Seq<TraitView>)> {
        self.entries@.map(|i: int, e: CategoryEntry| e@)
    }
}

/// Where a key lands: the first position whose key is not below it.
pub open spec fn insert_pos(m: Seq<(Seq<char>, Seq<TraitView>)>, key: Seq<char>) -> int
    decreases m.len(),
{
    if m.len() == 0 {
        0
    } else if lex_lt(m[0].0, key) {
        1 + insert_pos(m.skip(1), key)
    } else {
        0
    }
}

pub proof fn lemma_insert_pos_bounds(m: Seq<(Seq<char>, Seq<TraitView>)>, key: Seq<char>)
    ensures
        0 <= insert_pos(m, key) <= m.len(),
    decreases m.len(),
{
    if m.len() > 0 && lex_lt(m[0].0, key) {
        lemma_insert_pos_bounds(m.skip(1), key);
    }
}

proof fn lemma_insert_pos_at(m: Seq<(Seq<char>, Seq<TraitView>)>, key: Seq<char>, k: int)
    requires
        0 <= k <= m.len(),
        forall|j: int| 0 <= j < k ==> lex_lt(m[j].0, key),
        k == m.len() || !lex_lt(m[k].0, key),
    ensures
        insert_pos(m, key) == k,
    decreases m.len(),
{
    if k == 0 {
    } else {
        let t = m.skip(1);
        assert forall|j: int| 0 <= j < k - 1 implies lex_lt(t[j].0, key) by {
            assert(t[j] == m[j + 1]);
        }
        if k - 1 < t.len() {
            assert(t[k - 1] == m[k]);
        }
        lemma_insert_pos_at(t, key, k - 1);
    }
}

/// Adding one record under a key: appended to the key's list when the key
/// is present, else a fresh one-record entry at the key's sorted position.
pub open spec fn spec_insert(
    m: Seq<(Seq<char>, Seq<TraitView>)>,
    key: Seq<char>,
    rec: TraitView,
) -> Seq<(Seq<char>, Seq<TraitView>)> {
    let i = insert_pos(m, key);
    if 0 <= i < m.len() && m[i].0 == key {
        m.update(i, (key, m[i].1.push(rec)))
    } else {
        m.subrange(0, i).push((key, seq![rec])) + m.skip(i)
    }
}

/// Strictly increasing keys, as a property of the table's view.
pub open spec fn spec_sorted(m: Seq<(Seq<char>, Seq<TraitView>)>) -> bool {
    forall|i: int, j: int| 0 <= i < j < m.len() ==> lex_lt(#[trigger] m[i].0, #[trigger] m[j].0)
}

proof fn lemma_insert_pos_prefix(m: Seq<(Seq<char>, Seq<TraitView>)>, key: Seq<char>)
    ensures
        forall|j: int| 0 <= j < insert_pos(m, key) ==> lex_lt(#[trigger] m[j].0, key),
        insert_pos(m, key) < m.len() ==> !lex_lt(m[insert_pos(m, key)].0, key),
    decreases m.len(),
{
    if m.len() > 0 && lex_lt(m[0].0, key) {
        lemma_insert_pos_prefix(m.skip(1), key);
        lemma_insert_pos_bounds(m.skip(1), key);
        let p = insert_pos(m, key);
        assert forall|j: int| 0 <= j < p implies lex_lt(#[trigger] m[j].0, key) by {
            if j > 0 {
                assert(m.skip(1)[j - 1] == m[j]);
            }
        }
        if p < m.len() {
            assert(m.skip(1)[p - 1] == m[p]);
        }
    }
}

/// Insertion keeps the keys strictly sorted.
pub proof fn lemma_insert_sorted(
    m: Seq<(Seq<char>, Seq<TraitView>)>,
    key: Seq<char>,
    rec: TraitView,
)
    requires
        spec_sorted(m),
    ensures
        spec_sorted(spec_insert(m, key, rec)),
{
    lemma_insert_pos_bounds(m, key);
    lemma_insert_pos_prefix(m, key);
    let p = insert_pos(m, key);
    let r = spec_insert(m, key, rec);
    if 0 <= p < m.len() && m[p].0 == key {
        assert forall|i: int, j: int| 0 <= i < j < r.len() implies lex_lt(
            #[trigger] r[i].0,
            #[trigger] r[j].0,
        ) by {
            assert(r[i].0 == m[i].0);
            assert(r[j].0 == m[j].0);
        }
    } else {
        if p < m.len() {
            lemma_lex_total(m[p].0, key);
            assert(lex_lt(key, m[p].0));
        }
        assert forall|i: int, j: int| 0 <= i < j < r.len() implies lex_lt(
            #[trigger] r[i].0,
            #[trigger] r[j].0,
        ) by {
            if i < p {
                assert(r[i].0 == m[i].0);
            } else if i > p {
                assert(r[i].0 == m[i - 1].0);
            }
            if j < p {
                assert(r[j].0 == m[j].0);
            } else if j > p {
                assert(r[j].0 == m[j - 1].0);
            }
            if i == p && j > p {
                if j - 1 > p {
                    lemma_lex_trans(key, m[p].0, m[j - 1].0);
                }
            }
        }
    }
}

/// Every category list in the result of an insertion is nonempty when every
/// one before it was: a category appears only with at least one record.
pub proof fn lemma_insert_nonempty(
    m: Seq<(Seq<char>, Seq<TraitView>)>,
    key: Seq<char>,
    rec: TraitView,
)
    requires
        forall|i: int| 0 <= i < m.len() ==> #[trigger] m[i].1.len() > 0,
        0 <= insert_pos(m, key) <= m.len(),
    ensures
        forall|i: int|
            0 <= i < spec_insert(m, key, rec).len() ==> #[trigger] spec_insert(m, key, rec)[i].1.len()
                > 0,
{
    let p = insert_pos(m, key);
    if 0 <= p < m.len() && m[p].0 == key {
    } else {
        assert forall|i: int| 0 <= i < spec_insert(m, key, rec).len() implies #[trigger] spec_insert(
            m,
            key,
            rec,
        )[i].1.len() > 0 by {
            let r = spec_insert(m, key, rec);
            if i < p {
                assert(r[i] == m[i]);
            } else if i == p {
                assert(r[i].1 == seq![rec]);
            } else {
                assert(r[i] == m[i - 1]);
            }
        }
    }
}

impl TraitsMap {
    /// Keys strictly increasing.
    pub open spec fn wf(&self) -> bool {
        forall|i: int, j: int|
            0 <= i < j < self.entries@.len() ==> lex_lt(
                #[trigger] self.entries@[i].name@,
                #[trigger] self.entries@[j].name@,
            )
    }

    /// An empty table.
    pub fn new() -> (r: TraitsMap)
        ensures
            r@ == Seq::<(Seq<char>, Seq<TraitView>)>::empty(),
            r.wf(),
    {
        let r = TraitsMap { entries: Vec::new() };
        proof {
            assert(r@ =~= Seq::<(Seq<char>, Seq<TraitView>)>::empty());
        }
        r
    }

    /// Adds one record under a category key, keeping the keys sorted and
    /// appending at the end of the key's list when it is already present.
    pub fn insert_trait(&mut self, category: &str, rec: TraitRecord)
        requires
            old(self).wf(),
        ensures
            final(self).wf(),
            final(self)@ == spec_insert(old(self)@, category@, rec@),
    {
        let ghost m = self@;
        let n: usize = self.entries.len();
        let mut i: usize = 0;
        while i < n && str_lex_lt(self.entries[i].name.as_str(), category)
            invariant
                0 <= i <= n,
                n == self.entries@.len(),
                *self == *old(self),
                forall|j: int| 0 <= j < i ==> lex_lt(#[trigger] self.entries@[j].name@, category@),
            decreases n - i,
        {
            i = i + 1;
        }
        proof {
            assert(forall|j: int| 0 <= j < m.len() ==> m[j] == self.entries@[j]@);
            assert forall|j: int| 0 <= j < i implies lex_lt(#[trigger] m[j].0, category@) by {
                assert(m[j].0 == self.entries@[j].name@);
            }
            if (i as int) < m.len() {
                assert(m[i as int].0 == self.entries@[i as int].name@);
            }
            lemma_insert_pos_at(m, category@, i as int);
        }
        if i < n && !str_lex_lt(category, self.entries[i].name.as_str()) {
            proof {
                lemma_lex_total(self.entries@[i as int].name@, category@);
                assert(m[i as int].0 == category@);
            }
            let mut e: CategoryEntry = self.entries.remove(i);
            e.records.push(rec);
            self.entries.insert(i, e);
            proof {
                assert(self@ =~= spec_insert(m, category@, rec@)) by {
                    assert(forall|j: int|
                        0 <= j < self.entries@.len() && j != i ==> self.entries@[j]
                            == old(self).entries@[j]);
                    assert(self.entries@[i as int].name@ == category@);
                    assert(self.entries@[i as int].records@ =~= old(
                        self,
                    ).entries@[i as int].records@.push(rec));
                    assert(self.entries@[i as int].records@.map(|j: int, r: TraitRecord| r@) =~= m[
                        i as int].1.push(rec@));
                }
                assert forall|a: int, b: int|
                    0 <= a < b < self.entries@.len() implies lex_lt(
                    #[trigger] self.entries@[a].name@,
                    #[trigger] self.entries@[b].name@,
                ) by {
                    assert(self.entries@[a].name@ == old(self).entries@[a].name@);
                    assert(self.entries@[b].name@ == old(self).entries@[b].name@);
                }
            }
        } else {
            let mut records: Vec<TraitRecord> = Vec::new();
            records.push(rec);
            let e = CategoryEntry { name: category.to_owned(), records };
            self.entries.insert(i, e);
            proof {
                if (i as int) < m.len() {
                    assert(!lex_lt(m[i as int].0, category@));
                    assert(lex_lt(category@, m[i as int].0));
                }
                assert(self@ =~= spec_insert(m, category@, rec@)) by {
                    assert(forall|j: int|
                        0 <= j < i ==> self.entries@[j] == old(self).entries@[j]);
                    assert(forall|j: int|
                        i < j < self.entries@.len() ==> self.entries@[j] == old(self).entries@[j
                            - 1]);
                    assert(self.entries@[i as int].name@ == category@);
                    assert(self.entries@[i as int].records@.map(|j: int, r: TraitRecord| r@)
                        =~= seq![rec@]);
                }
                assert forall|a: int, b: int|
                    0 <= a < b < self.entries@.len() implies lex_lt(
                    #[trigger] self.entries@[a].name@,
                    #[trigger] self.entries@[b].name@,
                ) by {
                    let na = self.entries@[a].name@;
                    let nb = self.entries@[b].name@;
                    if a < i && b < i {
                        assert(na == old(self).entries@[a].name@);
                        assert(nb == old(self).entries@[b].name@);
                    } else if a < i && b == i {
                        assert(na == old(self).entries@[a].name@);
                        assert(lex_lt(m[a].0, category@));
                        assert(m[a].0 == na);
                    } else if a < i && b > i {
                        assert(na == old(self).entries@[a].name@);
                        assert(nb == old(self).entries@[b - 1].name@);
                    } else if a == i {
                        assert(nb == old(self).entries@[b - 1].name@);
                        assert(m[b - 1].0 == nb);
                        assert(lex_lt(category@, m[i as int].0));
                        if b - 1 > i {
                            assert(lex_lt(m[i as int].0, m[b - 1].0)) by {
                                assert(m[i as int].0 == old(self).entries@[i as int].name@);
                            }
                            lemma_lex_trans(category@, m[i as int].0, m[b - 1].0);
                        }
                    } else {
                        assert(na == old(self).entries@[a - 1].name@);
                        assert(nb == old(self).entries@[b - 1].name@);
                    }
                }
            }
        }
    }
}

} // verus!
