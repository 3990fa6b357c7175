//! Keycode definitions and the table that maps each recognised identifier,
//! canonical or alias, to its definition.

use vstd::prelude::*;

use crate::text::{blank, is_blank};

verus! {

/// One canonical keycode definition.
#[derive(Debug)]
pub struct KeycodeInfo {
    pub key: String,
    pub group: Option<String>,
    pub label: Option<String>,
    pub aliases: Option<Vec<String>>,
}

/// What a [`KeycodeInfo`] holds, as mathematical strings.
pub struct KeycodeInfoView {
    pub key: Seq<char>,
    pub group: Option<Seq<char>>,
    pub label: Option<Seq<char>>,
    pub aliases: Option<Seq<Seq<char>>>,
}

pub open spec fn option_view(o: Option<String>) -> Option<Seq<char>> {
    match o {
        Some(s) => Some(s@),
        None => None,
    }
}

impl View for KeycodeInfo {
    type V = KeycodeInfoView;

    open spec fn view(&self) -> KeycodeInfoView {
        KeycodeInfoView {
            key: self.key@,
            group: option_view(self.group),
            label: option_view(self.label),
            aliases: match self.aliases {
                Some(v) => Some(v@.map_values(|s: String| s@)),
                None => None,
            },
        }
    }
}

fn copy_option(o: &Option<String>) -> (r: Option<String>)
    ensures
        option_view(r) == option_view(*o),
{
    match o {
        Some(s) => Some(s.clone()),
        None => None,
    }
}

impl KeycodeInfo {
    /// An independent copy of this definition.
    pub fn copy(&self) -> (r: KeycodeInfo)
        ensures
            r@ == self@,
    {
        let aliases = match &self.aliases {
            Some(v) => {
                let c = v.clone();
                proof {
                    assert(c@.map_values(|s: String| s@) =~= v@.map_values(|s: String| s@));
                }
                Some(c)
            },
            None => None,
        };
        KeycodeInfo {
            key: self.key.clone(),
            group: copy_option(&self.group),
            label: copy_option(&self.label),
            aliases,
        }
    }
}

/// A table from identifier to keycode definition; each identifier stands in
/// it at most once.
pub struct KeycodeTable {
    entries: Vec<(String, KeycodeInfo)>,
}

impl KeycodeTable {
    /// No identifier stands twice.
    pub closed spec fn wf(&self) -> bool {
        forall|i: int, j: int|
            0 <= i < j < self.entries@.len() ==> #[trigger] self.entries@[i].0@
                != #[trigger] self.entries@[j].0@
    }

    closed spec fn holds_at(&self, i: int, k: Seq<char>) -> bool {
        0 <= i < self.entries@.len() && self.entries@[i].0@ == k
    }

    proof fn lemma_view_at(&self, i: int)
        requires
            self.wf(),
            0 <= i < self.entries@.len(),
        ensures
            self@.contains_key(self.entries@[i].0@),
            self@[self.entries@[i].0@] == self.entries@[i].1@,
    {
        let k = self.entries@[i].0@;
        assert(self.holds_at(i, k));
        let j = choose|j: int| self.holds_at(j, k);
        if i < j {
            assert(self.entries@[i].0@ != self.entries@[j].0@);
        } else if j < i {
            assert(self.entries@[j].0@ != self.entries@[i].0@);
        }
    }

    /// The empty table.
    pub fn new() -> (r: KeycodeTable)
        ensures
            r.wf(),
            r@ == Map::<Seq<char>, KeycodeInfoView>::empty(),
    {
        let r = KeycodeTable { entries: Vec::new() };
        assert(r@ =~= Map::<Seq<char>, KeycodeInfoView>::empty());
        r
    }

    fn find(&self, key: &String) -> (r: Option<usize>)
        requires
            self.wf(),
        ensures
            match r {
                Some(i) => self.holds_at(i as int, key@),
                None => !self@.contains_key(key@),
            },
    {
        let mut i: usize = 0;
        while i < self.entries.len()
            invariant
                i <= self.entries@.len(),
                forall|j: int| 0 <= j < i ==> !self.holds_at(j, key@),
            decreases self.entries@.len() - i,
        {
            if self.entries[i].0 == *key {
                return Some(i);
            }
            i = i + 1;
        }
        None
    }

    /// The definition that `key` stands for, if any.
    pub fn get(&self, key: &str) -> (r: Option<&KeycodeInfo>)
        requires
            self.wf(),
        ensures
            match r {
                Some(info) => self@.contains_key(key@) && self@[key@] == info@,
                None => !self@.contains_key(key@),
            },
    {
        let k = key.to_owned();
        match self.find(&k) {
            Some(i) => {
                proof {
                    self.lemma_view_at(i as int);
                }
                Some(&self.entries[i].1)
            },
            None => None,
        }
    }

    /// Makes `key` stand for `info`, in place of whatever it stood for.
    pub fn insert(&mut self, key: String, info: KeycodeInfo)
        requires
            old(self).wf(),
        ensures
            final(self).wf(),
            final(self)@ == old(self)@.insert(key@, info@),
    {
        let ghost k = key@;
        let ghost v = info@;
        match self.find(&key) {
            Some(i) => {
                self.entries.set(i, (key, info));
                proof {
                    assert forall|i1: int, j1: int|
                        0 <= i1 < j1 < self.entries@.len() implies #[trigger] self.entries@[i1].0@
                        != #[trigger] self.entries@[j1].0@ by {
                        if i1 != i && j1 != i {
                            assert(old(self).entries@[i1].0@ != old(self).entries@[j1].0@);
                        } else if i1 == i {
                            assert(old(self).entries@[i1].0@ != old(self).entries@[j1].0@);
                        } else {
                            assert(old(self).entries@[i1].0@ != old(self).entries@[j1].0@);
                        }
                    }
                    self.lemma_agrees(old(self), i as int);
                }
            },
            None => {
                self.entries.push((key, info));
                proof {
                    assert forall|i1: int, j1: int|
                        0 <= i1 < j1 < self.entries@.len() implies #[trigger] self.entries@[i1].0@
                        != #[trigger] self.entries@[j1].0@ by {
                        if j1 < old(self).entries@.len() {
                            assert(old(self).entries@[i1].0@ != old(self).entries@[j1].0@);
                        } else {
                            old(self).lemma_view_at(i1);
                        }
                    }
                    self.lemma_agrees(old(self), old(self).entries@.len() as int);
                }
            },
        }
    }

    /// `self` is `prev` with the pair at `i` set, or pushed where `i` is the
    /// old length.
    proof fn lemma_agrees(&self, prev: &KeycodeTable, i: int)
        requires
            self.wf(),
            prev.wf(),
            0 <= i < self.entries@.len(),
            i <= prev.entries@.len(),
            self.entries@.len() == if i == prev.entries@.len() {
                prev.entries@.len() + 1int
            } else {
                prev.entries@.len() as int
            },
            i < prev.entries@.len() ==> prev.entries@[i].0@ == self.entries@[i].0@,
            forall|j: int| 0 <= j < prev.entries@.len() && j != i ==> self.entries@[j] == prev.entries@[j],
        ensures
            self@ == prev@.insert(self.entries@[i].0@, self.entries@[i].1@),
    {
        let k = self.entries@[i].0@;
        let expect = prev@.insert(k, self.entries@[i].1@);
        self.lemma_view_at(i);
        assert forall|q: Seq<char>| #[trigger] self@.contains_key(q) <==> expect.contains_key(q) by {
            if self@.contains_key(q) && q != k {
                let j = choose|j: int| self.holds_at(j, q);
                assert(prev.holds_at(j, q));
            }
            if prev@.contains_key(q) && q != k {
                let j = choose|j: int| prev.holds_at(j, q);
                assert(self.holds_at(j, q));
            }
        }
        assert forall|q: Seq<char>| #[trigger] self@.contains_key(q) implies self@[q] == expect[q] by {
            if q != k {
                let j = choose|j: int| self.holds_at(j, q);
                assert(prev.holds_at(j, q));
                self.lemma_view_at(j);
                prev.lemma_view_at(j);
            }
        }
        assert(self@ =~= expect);
    }
}

impl View for KeycodeTable {
    type V = Map<Seq<char>, KeycodeInfoView>;

    /// Each identifier in the table, with the view of its definition.
    closed spec fn view(&self) -> Map<Seq<char>, KeycodeInfoView> {
        Map::new(
            |k: Seq<char>| exists|i: int| self.holds_at(i, k),
            |k: Seq<char>| self.entries@[choose|i: int| self.holds_at(i, k)].1@,
        )
    }
}

/// The identifiers that a definition is filed under: its canonical key and
/// each of its aliases that is not blank.
pub open spec fn names_of(e: KeycodeInfoView) -> Set<Seq<char>> {
    Set::new(
        |k: Seq<char>|
            k == e.key || (e.aliases is Some && e.aliases->0.contains(k) && !blank(k)),
    )
}

/// `m` after filing `e` under each of its names; a name already present
/// now stands for `e`.
pub open spec fn merge_entry(m: Map<Seq<char>, KeycodeInfoView>, e: KeycodeInfoView) -> Map<
    Seq<char>,
    KeycodeInfoView,
> {
    m.union_prefer_right(names_of(e).mk_map(|k: Seq<char>| e))
}

/// `m` after merging the definitions of `es` in order.
pub open spec fn merge_entries(
    m: Map<Seq<char>, KeycodeInfoView>,
    es: Seq<KeycodeInfoView>,
) -> Map<Seq<char>, KeycodeInfoView>
    decreases es.len(),
{
    if es.len() == 0 {
        m
    } else {
        merge_entry(merge_entries(m, es.drop_last()), es.last())
    }
}

/// One keycode document: definitions under names local to the document.
#[derive(Debug)]
pub struct KeycodeFile {
    pub keycodes: Vec<(String, KeycodeInfo)>,
}

impl View for KeycodeFile {
    type V = Seq<KeycodeInfoView>;

    /// The document's definitions, in order.
    open spec fn view(&self) -> Seq<KeycodeInfoView> {
        self.keycodes@.map_values(|p: (String, KeycodeInfo)| p.1@)
    }
}

/// `m` after merging, in order, each document that parsed; `None` stands for
/// one that did not, and adds nothing.
pub open spec fn merge_files(
    m: Map<Seq<char>, KeycodeInfoView>,
    files: Seq<Option<KeycodeFile>>,
) -> Map<Seq<char>, KeycodeInfoView>
    decreases files.len(),
{
    if files.len() == 0 {
        m
    } else {
        let prev = merge_files(m, files.drop_last());
        match files.last() {
            Some(f) => merge_entries(prev, f@),
            None => prev,
        }
    }
}

/// The names of `e` among its key and its first `n` aliases.
spec fn names_upto(e: KeycodeInfoView, n: int) -> Set<Seq<char>> {
    Set::new(
        |k: Seq<char>|
            k == e.key || (e.aliases is Some && exists|j: int|
                0 <= j < n && #[trigger] e.aliases->0[j] == k && !blank(k)),
    )
}

impl KeycodeTable {
    /// Files `info` under its canonical key and each alias that is not blank.
    pub fn insert_entry(&mut self, info: &KeycodeInfo)
        requires
            old(self).wf(),
        ensures
            final(self).wf(),
            final(self)@ == merge_entry(old(self)@, info@),
    {
        let ghost e = info@;
        let ghost m0 = self@;
        self.insert(info.key.clone(), info.copy());
        proof {
            assert(self@ =~= m0.union_prefer_right(names_upto(e, 0).mk_map(|k: Seq<char>| e)));
        }
        if let Some(aliases) = &info.aliases {
            let mut i: usize = 0;
            while i < aliases.len()
                invariant
                    self.wf(),
                    e == info@,
                    info.aliases == Some(*aliases),
                    i <= aliases@.len(),
                    self@ == m0.union_prefer_right(names_upto(e, i as int).mk_map(|k: Seq<char>| e)),
                decreases aliases@.len() - i,
            {
                let ghost before = self@;
                let alias = &aliases[i];
                if !is_blank(alias.as_str()) {
                    self.insert(alias.clone(), info.copy());
                }
                proof {
                    assert(e.aliases->0[i as int] == alias@);
                    assert(names_upto(e, i + 1) =~= if blank(alias@) {
                        names_upto(e, i as int)
                    } else {
                        names_upto(e, i as int).insert(alias@)
                    });
                    assert(self@ =~= m0.union_prefer_right(
                        names_upto(e, i + 1).mk_map(|k: Seq<char>| e),
                    ));
                }
                i = i + 1;
            }
            proof {
                assert(names_upto(e, aliases@.len() as int) =~= names_of(e));
            }
        } else {
            proof {
                assert(names_upto(e, 0) =~= names_of(e));
            }
        }
    }
}

impl KeycodeTable {
    /// Merges the definitions of `file` in order, each as [`Self::insert_entry`]
    /// does.
    pub fn merge_file(&mut self, file: &KeycodeFile)
        requires
            old(self).wf(),
        ensures
            final(self).wf(),
            final(self)@ == merge_entries(old(self)@, file@),
    {
        let ghost m0 = self@;
        let mut i: usize = 0;
        while i < file.keycodes.len()
            invariant
                self.wf(),
                i <= file@.len(),
                self@ == merge_entries(m0, file@.subrange(0, i as int)),
            decreases file@.len() - i,
        {
            self.insert_entry(&file.keycodes[i].1);
            proof {
                assert(file@.subrange(0, i + 1).drop_last() =~= file@.subrange(0, i as int));
            }
            i = i + 1;
        }
        proof {
            assert(file@.subrange(0, i as int) =~= file@);
        }
    }
}

/// Builds the table from keycode documents in the order given, later
/// definitions taking the place of earlier ones under a shared identifier.
/// `None` stands for a document that could not be parsed: it is skipped, and
/// the build goes on.
pub fn build_keycode_table(files: &Vec<Option<KeycodeFile>>) -> (r: KeycodeTable)
    ensures
        r.wf(),
        r@ == merge_files(Map::empty(), files@),
{
    let mut table = KeycodeTable::new();
    let mut i: usize = 0;
    while i < files.len()
        invariant
            table.wf(),
            i <= files@.len(),
            table@ == merge_files(Map::empty(), files@.subrange(0, i as int)),
        decreases files@.len() - i,
    {
        if let Some(f) = &files[i] {
            table.merge_file(f);
        }
        proof {
            assert(files@.subrange(0, i + 1).drop_last() =~= files@.subrange(0, i as int));
        }
        i = i + 1;
    }
    proof {
        assert(files@.subrange(0, i as int) =~= files@);
    }
    table
}

/// The display label of `k` in `m`: the label of its definition where that is
/// present and not blank, else `k` itself.
pub open spec fn resolve(k: Seq<char>, m: Map<Seq<char>, KeycodeInfoView>) -> Seq<char> {
    if m.contains_key(k) && m[k].label is Some && !blank(m[k].label->0) {
        m[k].label->0
    } else {
        k
    }
}

/// The display label of `keycode`: the label of its definition where that is
/// present and not blank, else `keycode` unchanged.
pub fn get_keycode_label(keycode: &str, keycodes: &KeycodeTable) -> (r: String)
    requires
        keycodes.wf(),
    ensures
        r@ == resolve(keycode@, keycodes@),
{
    if let Some(info) = keycodes.get(keycode) {
        if let Some(label) = &info.label {
            if !is_blank(label.as_str()) {
                return label.clone();
            }
        }
    }
    keycode.to_owned()
}

/// The extension that marks a keycode document.
pub open spec fn keycode_extension() -> Seq<char> {
    seq!['h', 'j', 's', 'o', 'n']
}

/// A file name whose extension is that of keycode documents: it ends with a
/// dot and the extension, and has something before that dot (a name such as
/// `.hjson` is a hidden file without an extension).
pub open spec fn is_keycode_document_name(name: Seq<char>) -> bool {
    let n = keycode_extension().len();
    &&& name.len() > n + 1
    &&& name[name.len() - n - 1] == '.'
    &&& name.subrange(name.len() - n, name.len() as int) == keycode_extension()
}

/// Tells whether a directory entry named `name` is a keycode document.
pub fn is_keycode_document(name: &str) -> (r: bool)
    ensures
        r == is_keycode_document_name(name@),
{
    let ext: [char; 5] = ['h', 'j', 's', 'o', 'n'];
    let len = name.unicode_len();
    if len <= 6 {
        return false;
    }
    let start: usize = len - 5;
    if name.get_char(start - 1) != '.' {
        return false;
    }
    let mut i: usize = 0;
    while i < 5
        invariant
            start + 5 == len,
            len == name@.len(),
            ext@ == keycode_extension(),
            i <= 5,
            forall|k: int| 0 <= k < i ==> name@[start + k] == keycode_extension()[k],
        decreases 5 - i,
    {
        if name.get_char(start + i) != ext[i] {
            proof {
                assert(name@.subrange(start as int, len as int)[i as int] != keycode_extension()[i as int]);
            }
            return false;
        }
        i = i + 1;
    }
    proof {
        assert(name@.subrange(start as int, len as int) =~= keycode_extension());
    }
    true
}

/// Once a definition whose label is not blank has been filed, its canonical
/// key resolves to that label.
pub proof fn lemma_key_resolves_to_label(m: Map<Seq<char>, KeycodeInfoView>, e: KeycodeInfoView)
    requires
        e.label is Some,
        !blank(e.label->0),
    ensures
        resolve(e.key, merge_entry(m, e)) == e.label->0,
{
    assert(names_of(e).contains(e.key));
}

/// Once a definition has been filed, each of its aliases that is not blank
/// resolves as its canonical key does, where the definition has a label that
/// is not blank. (Without one, each identifier resolves to itself, so an
/// alias other than the key resolves differently.)
pub proof fn lemma_alias_resolves_as_key(
    m: Map<Seq<char>, KeycodeInfoView>,
    e: KeycodeInfoView,
    a: Seq<char>,
)
    requires
        e.aliases is Some,
        e.aliases->0.contains(a),
        !blank(a),
        (e.label is Some && !blank(e.label->0)) || a == e.key,
    ensures
        resolve(a, merge_entry(m, e)) == resolve(e.key, merge_entry(m, e)),
{
    assert(names_of(e).contains(e.key));
    assert(names_of(e).contains(a));
}

/// An identifier that the table does not hold resolves to itself, and
/// resolving the result again changes nothing.
pub proof fn lemma_unknown_resolves_to_itself(k: Seq<char>, m: Map<Seq<char>, KeycodeInfoView>)
    requires
        !m.contains_key(k),
    ensures
        resolve(k, m) == k,
        resolve(resolve(k, m), m) == resolve(k, m),
{
}

/// `k` is a name of some definition of a document that parsed.
pub open spec fn named_in(files: Seq<Option<KeycodeFile>>, k: Seq<char>) -> bool {
    exists|i: int, j: int|
        0 <= i < files.len() && files[i] is Some && 0 <= j < files[i]->0@.len() && names_of(
            #[trigger] files[i]->0@[j],
        ).contains(k)
}

proof fn lemma_entry_keys(m: Map<Seq<char>, KeycodeInfoView>, es: Seq<KeycodeInfoView>, k: Seq<char>)
    requires
        merge_entries(m, es).contains_key(k),
    ensures
        m.contains_key(k) || exists|j: int| 0 <= j < es.len() && names_of(#[trigger] es[j]).contains(k),
    decreases es.len(),
{
    if es.len() > 0 {
        let prev = merge_entries(m, es.drop_last());
        if prev.contains_key(k) {
            lemma_entry_keys(m, es.drop_last(), k);
            if !m.contains_key(k) {
                let j = choose|j: int| 0 <= j < es.drop_last().len() && names_of(#[trigger] es.drop_last()[j]).contains(k);
                assert(es[j] == es.drop_last()[j]);
            }
        } else {
            assert(names_of(es[es.len() - 1]).contains(k));
        }
    }
}

/// Every identifier of a built table is a canonical key or an alias that is
/// not blank, of a definition in a document that parsed: a blank alias never
/// becomes an identifier of the table.
pub proof fn lemma_table_keys_are_names(files: Seq<Option<KeycodeFile>>)
    ensures
        forall|k: Seq<char>|
            #[trigger] merge_files(Map::empty(), files).contains_key(k) ==> named_in(files, k),
    decreases files.len(),
{
    if files.len() > 0 {
        let init = files.drop_last();
        lemma_table_keys_are_names(init);
        assert forall|k: Seq<char>|
            #[trigger] merge_files(Map::empty(), files).contains_key(k) implies named_in(files, k) by {
            let prev = merge_files(Map::empty(), init);
            let last = files.len() - 1;
            let from_init = prev.contains_key(k);
            if from_init {
                assert(named_in(init, k));
                let (i, j) = choose|i: int, j: int|
                    0 <= i < init.len() && init[i] is Some && 0 <= j < init[i]->0@.len()
                        && names_of(#[trigger] init[i]->0@[j]).contains(k);
                assert(files[i] == init[i]);
            } else {
                let f = files[last]->0;
                lemma_entry_keys(prev, f@, k);
                let j = choose|j: int| 0 <= j < f@.len() && names_of(#[trigger] f@[j]).contains(k);
                assert(names_of(files[last]->0@[j]).contains(k));
            }
        }
    }
}

proof fn lemma_last_filing_wins(
    m: Map<Seq<char>, KeycodeInfoView>,
    es: Seq<KeycodeInfoView>,
    j: int,
    k: Seq<char>,
)
    requires
        0 <= j < es.len(),
        names_of(es[j]).contains(k),
        forall|j2: int| j < j2 < es.len() ==> !names_of(#[trigger] es[j2]).contains(k),
    ensures
        merge_entries(m, es).contains_key(k),
        merge_entries(m, es)[k] == es[j],
    decreases es.len(),
{
    if j < es.len() - 1 {
        let init = es.drop_last();
        assert forall|j2: int| j < j2 < init.len() implies !names_of(#[trigger] init[j2]).contains(k) by {
            assert(init[j2] == es[j2]);
        }
        lemma_last_filing_wins(m, init, j, k);
        assert(!names_of(es[es.len() - 1]).contains(k));
    }
}

/// Where a later document defines a canonical key that an earlier one also
/// defines, the later document's definition is the one the key stands for
/// (provided no definition after it in that document names the same
/// identifier).
pub proof fn lemma_later_document_wins(a: KeycodeFile, b: KeycodeFile, j: int)
    requires
        0 <= j < b@.len(),
        exists|i: int| 0 <= i < a@.len() && (#[trigger] a@[i]).key == b@[j].key,
        forall|j2: int| j < j2 < b@.len() ==> !names_of(#[trigger] b@[j2]).contains(b@[j].key),
    ensures
        merge_files(Map::empty(), seq![Some(a), Some(b)]).contains_key(b@[j].key),
        merge_files(Map::empty(), seq![Some(a), Some(b)])[b@[j].key] == b@[j],
{
    let files = seq![Some(a), Some(b)];
    assert(files.drop_last() =~= seq![Some(a)]);
    assert(names_of(b@[j]).contains(b@[j].key));
    lemma_last_filing_wins(merge_files(Map::empty(), files.drop_last()), b@, j, b@[j].key);
}

/// A document that could not be parsed contributes nothing: the table is the
/// one built from the other documents alone.
pub proof fn lemma_unparsed_document_adds_nothing(
    m: Map<Seq<char>, KeycodeInfoView>,
    files: Seq<Option<KeycodeFile>>,
    i: int,
)
    requires
        0 <= i < files.len(),
        files[i] is None,
    ensures
        merge_files(m, files) == merge_files(m, files.remove(i)),
    decreases files.len(),
{
    if i == files.len() - 1 {
        assert(files.remove(i) =~= files.drop_last());
    } else {
        lemma_unparsed_document_adds_nothing(m, files.drop_last(), i);
        assert(files.remove(i).drop_last() =~= files.drop_last().remove(i));
        assert(files.remove(i).last() == files.last());
    }
}

} // verus!
