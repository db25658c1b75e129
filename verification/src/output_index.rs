//! Ownership mapping for generated result files.
//!
//! Every produced workbook is recorded with the email of the authenticated
//! user who ran the search; downloads are only served back to the same
//! user. The mapping is kept in a sidecar JSON text (`.index.json`) inside
//! the outputs directory so it survives restarts.
use vstd::prelude::*;
use std::collections::HashMap;

use crate::storage::{expired, join_path, join_path_exec};
use crate::text::same_text;

verus! {

/// File name of the sidecar index inside the outputs directory.
pub const INDEX_FILE_NAME: &'static str = ".index.json";

/// Location of the sidecar index inside the outputs directory `dir`.
pub fn sidecar_path(dir: &str) -> (p: String)
    ensures
        p@ == join_path(dir@, INDEX_FILE_NAME@),
{
    join_path_exec(dir, INDEX_FILE_NAME)
}

/// The map from file name to owner that the entries `e` describe; a later
/// entry for a name replaces an earlier one.
pub open spec fn entries_map(e: Seq<(String, String)>) -> Map<Seq<char>, Seq<char>>
    decreases e.len(),
{
    if e.len() == 0 {
        Map::empty()
    } else {
        entries_map(e.drop_last()).insert(e.last().0@, e.last().1@)
    }
}

/// The file names of the entries `e`, in order.
pub open spec fn entry_names(e: Seq<(String, String)>) -> Seq<Seq<char>> {
    e.map_values(|p: (String, String)| p.0@)
}

/// How old a recorded file is, as far as the file system tells.
#[derive(Clone, Copy, Debug, PartialEq, Eq, Structural)]
pub enum FileAge {
    /// The file or its modification time could not be read.
    Missing,
    /// The modification time lies after the present.
    Future,
    /// Whole seconds since the last modification.
    Seconds(u64),
}

/// A recorded file of this age stays in the index: one modified less than
/// `ttl_seconds` ago, or one whose modification time lies in the future.
pub open spec fn keeps(age: FileAge, ttl_seconds: u64) -> bool {
    age is Future || (age matches FileAge::Seconds(s) && s < ttl_seconds)
}

/// Dropping a file of this age is a removal that rewrites the sidecar.
pub open spec fn counts_as_removal(age: FileAge, ttl_seconds: u64) -> bool {
    age is Missing || (age matches FileAge::Seconds(s) && s >= ttl_seconds)
}

pub fn keeps_exec(age: FileAge, ttl_seconds: u64) -> (b: bool)
    ensures
        b == keeps(age, ttl_seconds),
{
    match age {
        FileAge::Seconds(s) => s < ttl_seconds,
        FileAge::Future => true,
        FileAge::Missing => false,
    }
}

/// The names among `order` whose age lets them stay.
pub open spec fn kept_names(order: Seq<Seq<char>>, ages: Seq<FileAge>, ttl_seconds: u64) -> Set<Seq<char>> {
    Set::new(|k: Seq<char>| exists|i: int| 0 <= i < order.len() && order[i] == k && keeps(#[trigger] ages[i], ttl_seconds))
}

#[derive(Debug)]
pub struct OutputIndex {
    entries: Vec<(String, String)>,
}

impl View for OutputIndex {
    type V = Map<Seq<char>, Seq<char>>;

    closed spec fn view(&self) -> Map<Seq<char>, Seq<char>> {
        entries_map(self.entries@)
    }
}

proof fn lemma_entries_map_dom(e: Seq<(String, String)>)
    ensures
        forall|k: Seq<char>| #[trigger] entries_map(e).contains_key(k) <==> entry_names(e).contains(k),
        entries_map(e).dom().finite(),
    decreases e.len(),
{
    if e.len() > 0 {
        lemma_entries_map_dom(e.drop_last());
        assert(entry_names(e.drop_last()) =~= entry_names(e).drop_last());
        assert forall|k: Seq<char>| #[trigger] entries_map(e).contains_key(k) <==> entry_names(e).contains(k) by {
            if entry_names(e).contains(k) {
                let i = choose|i: int| 0 <= i < entry_names(e).len() && entry_names(e)[i] == k;
                if i < e.len() - 1 {
                    assert(entry_names(e.drop_last())[i] == k);
                }
            }
            if entry_names(e.drop_last()).contains(k) {
                let i = choose|i: int| 0 <= i < entry_names(e.drop_last()).len() && entry_names(e.drop_last())[i] == k;
                assert(entry_names(e)[i] == k);
            }
            if k == e.last().0@ {
                assert(entry_names(e)[e.len() - 1] == k);
            }
        }
    }
}

proof fn lemma_entries_map_len(e: Seq<(String, String)>)
    requires
        entry_names(e).no_duplicates(),
    ensures
        entries_map(e).len() == e.len(),
    decreases e.len(),
{
    if e.len() > 0 {
        let d = e.drop_last();
        assert(entry_names(d) =~= entry_names(e).drop_last());
        lemma_entries_map_len(d);
        lemma_entries_map_dom(d);
        if entry_names(d).contains(e.last().0@) {
            let i = choose|i: int| 0 <= i < entry_names(d).len() && entry_names(d)[i] == e.last().0@;
            assert(entry_names(e)[i] == entry_names(e)[e.len() - 1]);
        }
        assert(!entries_map(d).contains_key(e.last().0@));
    }
}

proof fn lemma_entries_map_at(e: Seq<(String, String)>, i: int)
    requires
        entry_names(e).no_duplicates(),
        0 <= i < e.len(),
    ensures
        entries_map(e).contains_key(e[i].0@),
        entries_map(e)[e[i].0@] == e[i].1@,
    decreases e.len(),
{
    lemma_entries_map_dom(e);
    assert(entry_names(e)[i] == e[i].0@);
    if i < e.len() - 1 {
        let d = e.drop_last();
        assert(entry_names(d) =~= entry_names(e).drop_last());
        lemma_entries_map_at(d, i);
        assert(entry_names(e)[i] != entry_names(e)[e.len() - 1]);
    }
}

impl OutputIndex {
    /// No file name is recorded twice.
    #[verifier::type_invariant]
    spec fn distinct_names(&self) -> bool {
        entry_names(self.entries@).no_duplicates()
    }

    /// The recorded file names in the order `names` lists them.
    pub closed spec fn order(&self) -> Seq<Seq<char>> {
        entry_names(self.entries@)
    }

    /// An empty index.
    pub fn new() -> (r: OutputIndex)
        ensures
            r@ == Map::<Seq<char>, Seq<char>>::empty(),
    {
        OutputIndex { entries: Vec::new() }
    }

    /// Position of `file_name` among the entries.
    fn find(&self, file_name: &str) -> (r: Option<usize>)
        ensures
            r matches Some(i) ==> i < self.entries@.len() && self.entries@[i as int].0@ == file_name@,
            r is None ==> !entry_names(self.entries@).contains(file_name@),
    {
        let mut i: usize = 0;
        while i < self.entries.len()
            invariant
                i <= self.entries@.len(),
                forall|j: int| 0 <= j < i ==> self.entries@[j].0@ != file_name@,
            decreases self.entries@.len() - i,
        {
            if same_text(self.entries[i].0.as_str(), file_name) {
                return Some(i);
            }
            i = i + 1;
        }
        proof {
            if entry_names(self.entries@).contains(file_name@) {
                let j = choose|j: int| 0 <= j < entry_names(self.entries@).len() && entry_names(self.entries@)[j] == file_name@;
                assert(self.entries@[j].0@ == file_name@);
            }
        }
        None
    }

    /// Records `owner` as the owner of `file_name`, replacing an earlier
    /// owner of the same name.
    pub fn insert(&mut self, file_name: &str, owner: &str)
        ensures
            final(self)@ == old(self)@.insert(file_name@, owner@),
    {
        proof {
            use_type_invariant(&*self);
        }
        let mut entries: Vec<(String, String)> = Vec::new();
        let ghost old_entries = self.entries@;
        let mut i: usize = 0;
        while i < self.entries.len()
            invariant
                old_entries == self.entries@,
                entry_names(old_entries).no_duplicates(),
                i <= old_entries.len(),
                entry_names(entries@).no_duplicates(),
                entries_map(entries@) == entries_map(old_entries.take(i as int)).remove(file_name@),
            decreases old_entries.len() - i,
        {
            let ghost before = entries@;
            let ghost pre = old_entries.take(i as int);
            assert(old_entries.take(i + 1).drop_last() =~= pre);
            assert(old_entries.take(i + 1).last() == old_entries[i as int]);
            if !same_text(self.entries[i].0.as_str(), file_name) {
                let name = self.entries[i].0.clone();
                let who = self.entries[i].1.clone();
                entries.push((name, who));
                proof {
                    assert(entries@.drop_last() =~= before);
                    lemma_fresh_name(old_entries, i as int);
                    lemma_push_fresh(before, entries@, old_entries[i as int].0@);
                }
            }
            assert(entries_map(entries@) =~= entries_map(old_entries.take(i + 1)).remove(file_name@));
            i = i + 1;
        }
        assert(old_entries.take(old_entries.len() as int) =~= old_entries);
        let ghost before = entries@;
        entries.push((String::from_str(file_name), String::from_str(owner)));
        proof {
            assert(entries@.drop_last() =~= before);
            lemma_push_fresh(before, entries@, file_name@);
        }
        assert(entries_map(entries@) =~= entries_map(old_entries).insert(file_name@, owner@));
        self.entries = entries;
    }

    /// Whether `file_name` is recorded and belongs to `owner`.
    pub fn is_owner(&self, file_name: &str, owner: &str) -> (r: bool)
        ensures
            r == (self@.contains_key(file_name@) && self@[file_name@] == owner@),
    {
        proof {
            use_type_invariant(self);
            lemma_entries_map_dom(self.entries@);
        }
        match self.find(file_name) {
            Some(i) => {
                proof {
                    lemma_entries_map_at(self.entries@, i as int);
                }
                same_text(self.entries[i].1.as_str(), owner)
            },
            None => false,
        }
    }

    /// Number of recorded files.
    pub fn len_of(&self) -> (n: usize)
        ensures
            n == self@.len(),
    {
        proof {
            use_type_invariant(self);
            lemma_entries_map_len(self.entries@);
        }
        self.entries.len()
    }

    /// The recorded file names, each once.
    pub fn names(&self) -> (r: Vec<String>)
        ensures
            r@.map_values(|s: String| s@) == self.order(),
            self.order().no_duplicates(),
            forall|k: Seq<char>| #[trigger] self@.contains_key(k) <==> self.order().contains(k),
    {
        proof {
            use_type_invariant(self);
            lemma_entries_map_dom(self.entries@);
        }
        let mut r: Vec<String> = Vec::new();
        let mut i: usize = 0;
        while i < self.entries.len()
            invariant
                i <= self.entries@.len(),
                r@.len() == i,
                r@.map_values(|s: String| s@) == entry_names(self.entries@).take(i as int),
            decreases self.entries@.len() - i,
        {
            r.push(self.entries[i].0.clone());
            assert(r@.map_values(|s: String| s@) =~= entry_names(self.entries@).take(i + 1));
            i = i + 1;
        }
        assert(entry_names(self.entries@).take(i as int) =~= entry_names(self.entries@));
        r
    }

    /// The recorded (file name, owner) pairs, each name once.
    pub fn entries(&self) -> (r: Vec<(String, String)>)
        ensures
            entries_map(r@) == self@,
            entry_names(r@).no_duplicates(),
    {
        proof {
            use_type_invariant(self);
        }
        let mut r: Vec<(String, String)> = Vec::new();
        let mut i: usize = 0;
        while i < self.entries.len()
            invariant
                i <= self.entries@.len(),
                r@.len() == i,
                forall|j: int| 0 <= j < i ==> (#[trigger] r@[j]).0@ == self.entries@[j].0@ && r@[j].1@ == self.entries@[j].1@,
            decreases self.entries@.len() - i,
        {
            let name = self.entries[i].0.clone();
            let who = self.entries[i].1.clone();
            r.push((name, who));
            i = i + 1;
        }
        proof {
            lemma_same_entries(r@, self.entries@);
        }
        r
    }

    /// Drops the files whose age does not let them stay; `ages[i]` is the age
    /// of the file named `i`-th by `names`. Returns whether a file was
    /// missing or expired (the cases that call for rewriting the sidecar).
    pub fn prune(&mut self, ages: &Vec<FileAge>, ttl_seconds: u64) -> (removed: bool)
        requires
            ages@.len() == old(self).order().len(),
        ensures
            final(self)@ == old(self)@.restrict(kept_names(old(self).order(), ages@, ttl_seconds)),
            removed == exists|i: int| 0 <= i < ages@.len() && counts_as_removal(#[trigger] ages@[i], ttl_seconds),
    {
        proof {
            use_type_invariant(&*self);
            lemma_entries_map_dom(self.entries@);
        }
        let ghost old_entries = self.entries@;
        let ghost kept = kept_names(entry_names(old_entries), ages@, ttl_seconds);
        let mut entries: Vec<(String, String)> = Vec::new();
        let mut removed = false;
        let mut i: usize = 0;
        while i < self.entries.len()
            invariant
                old_entries == self.entries@,
                ages@.len() == old_entries.len(),
                entry_names(old_entries).no_duplicates(),
                kept == kept_names(entry_names(old_entries), ages@, ttl_seconds),
                i <= old_entries.len(),
                entry_names(entries@).no_duplicates(),
                entries_map(entries@) == entries_map(old_entries.take(i as int)).restrict(kept),
                removed == exists|j: int| 0 <= j < i && counts_as_removal(#[trigger] ages@[j], ttl_seconds),
            decreases old_entries.len() - i,
        {
            let ghost before = entries@;
            let ghost pre = old_entries.take(i as int);
            assert(old_entries.take(i + 1).drop_last() =~= pre);
            assert(old_entries.take(i + 1).last() == old_entries[i as int]);
            let age = ages[i];
            let keep = keeps_exec(age, ttl_seconds);
            let ghost name = old_entries[i as int].0@;
            proof {
                assert(entry_names(old_entries)[i as int] == name);
                if keeps(age, ttl_seconds) {
                    assert(kept.contains(name));
                } else if kept.contains(name) {
                    let j = choose|j: int|
                        0 <= j < entry_names(old_entries).len() && entry_names(old_entries)[j] == name && keeps(
                            #[trigger] ages@[j],
                            ttl_seconds,
                        );
                    assert(j == i);
                }
            }
            if keep {
                let n = self.entries[i].0.clone();
                let who = self.entries[i].1.clone();
                entries.push((n, who));
                proof {
                    assert(entries@.drop_last() =~= before);
                    lemma_fresh_name(old_entries, i as int);
                    lemma_entries_map_dom(before);
                    lemma_entries_map_dom(pre);
                    lemma_push_fresh(before, entries@, name);
                }
            } else {
                removed = true;
            }
            assert(entries_map(entries@) =~= entries_map(old_entries.take(i + 1)).restrict(kept));
            proof {
                if keeps(age, ttl_seconds) {
                    assert(!counts_as_removal(age, ttl_seconds));
                }
            }
            i = i + 1;
        }
        assert(old_entries.take(old_entries.len() as int) =~= old_entries);
        self.entries = entries;
        removed
    }
}

/// The name of entry `i` is not among the earlier ones.
proof fn lemma_fresh_name(e: Seq<(String, String)>, i: int)
    requires
        entry_names(e).no_duplicates(),
        0 <= i < e.len(),
    ensures
        !entries_map(e.take(i)).contains_key(e[i].0@),
{
    lemma_entries_map_dom(e.take(i));
    if entry_names(e.take(i)).contains(e[i].0@) {
        let j = choose|j: int| 0 <= j < entry_names(e.take(i)).len() && entry_names(e.take(i))[j] == e[i].0@;
        assert(entry_names(e)[j] == entry_names(e)[i]);
    }
}

/// Appending an entry whose name is not yet mapped keeps the names distinct.
proof fn lemma_push_fresh(before: Seq<(String, String)>, after: Seq<(String, String)>, name: Seq<char>)
    requires
        entry_names(before).no_duplicates(),
        after.len() == before.len() + 1,
        after.drop_last() == before,
        after.last().0@ == name,
        !entries_map(before).contains_key(name),
    ensures
        entry_names(after).no_duplicates(),
        entry_names(after) == entry_names(before).push(name),
{
    lemma_entries_map_dom(before);
    assert(entry_names(after) =~= entry_names(before).push(name));
    assert forall|x: int, y: int| 0 <= x < y < entry_names(after).len() implies entry_names(after)[x] != entry_names(after)[y] by {
        if y == before.len() {
            assert(entry_names(before)[x] == entry_names(after)[x]);
        }
    }
}

/// What `serde_json::from_str` reads from `raw` as a JSON object whose
/// members are objects of strings: each file name's fields; `None` when
/// `raw` is not such an object.
pub uninterp spec fn sidecar_json(raw: Seq<char>) -> Option<Map<Seq<char>, Map<Seq<char>, Seq<char>>>>;

/// The map of fields that the pairs `f` list.
pub open spec fn fields_map(f: Seq<(String, String)>) -> Map<Seq<char>, Seq<char>>
    decreases f.len(),
{
    if f.len() == 0 {
        Map::empty()
    } else {
        fields_map(f.drop_last()).insert(f.last().0@, f.last().1@)
    }
}

pub open spec fn field_keys(f: Seq<(String, String)>) -> Seq<Seq<char>> {
    f.map_values(|p: (String, String)| p.0@)
}

/// The map from file name to fields that the pairs `v` list.
pub open spec fn listing_map(v: Seq<(String, Vec<(String, String)>)>) -> Map<Seq<char>, Map<Seq<char>, Seq<char>>>
    decreases v.len(),
{
    if v.len() == 0 {
        Map::empty()
    } else {
        listing_map(v.drop_last()).insert(v.last().0@, fields_map(v.last().1@))
    }
}

pub open spec fn listing_names(v: Seq<(String, Vec<(String, String)>)>) -> Seq<Seq<char>> {
    v.map_values(|p: (String, Vec<(String, String)>)| p.0@)
}

/// `serde_json::from_str` of the sidecar text into a map from file name to
/// a map of string fields, handed back as pairs in the maps' iteration
/// order. The maps it reads are named by `sidecar_json`; the order of the
/// pairs is left open, each name and each field key occurring once.
#[verifier::external_body]
fn parse_sidecar(raw: &str) -> (r: Option<Vec<(String, Vec<(String, String)>)>>)
    ensures
        r is Some <==> sidecar_json(raw@) is Some,
        r matches Some(v) ==> {
            &&& listing_names(v@).no_duplicates()
            &&& forall|i: int| 0 <= i < v@.len() ==> field_keys(#[trigger] v@[i].1@).no_duplicates()
            &&& sidecar_json(raw@) == Some(listing_map(v@))
        },
{
    let parsed = serde_json::from_str::<HashMap<String, HashMap<String, String>>>(raw).ok()?;
    Some(parsed.into_iter().map(|(name, fields)| (name, fields.into_iter().collect())).collect())
}

/// The owners that parsed sidecar maps record: each file name with an
/// `owner` field, mapped to it.
pub open spec fn owners_of(m: Map<Seq<char>, Map<Seq<char>, Seq<char>>>) -> Map<Seq<char>, Seq<char>> {
    Map::new(|k: Seq<char>| m.contains_key(k) && m[k].contains_key("owner"@), |k: Seq<char>| m[k]["owner"@])
}

proof fn lemma_owner_field(f: Seq<(String, String)>)
    requires
        field_keys(f).no_duplicates(),
    ensures
        owner_field(f) == (if fields_map(f).contains_key("owner"@) {
            Some(fields_map(f)["owner"@])
        } else {
            None::<Seq<char>>
        }),
    decreases f.len(),
{
    if f.len() > 0 {
        let rest = f.drop_first();
        assert(field_keys(rest) =~= field_keys(f).drop_first());
        lemma_owner_field(rest);
        lemma_fields_map_first(f);
    }
}

/// `fields_map` seen from the front: the first pair's key is mapped to its
/// value unless a later pair has the same key.
proof fn lemma_fields_map_first(f: Seq<(String, String)>)
    requires
        f.len() > 0,
        field_keys(f).no_duplicates(),
    ensures
        fields_map(f) == fields_map(f.drop_first()).insert(f[0].0@, f[0].1@),
        !fields_map(f.drop_first()).contains_key(f[0].0@),
    decreases f.len(),
{
    lemma_fields_map_keys(f.drop_first());
    assert(field_keys(f.drop_first()) =~= field_keys(f).drop_first());
    if fields_map(f.drop_first()).contains_key(f[0].0@) {
        let j = choose|j: int| 0 <= j < field_keys(f.drop_first()).len() && field_keys(f.drop_first())[j] == f[0].0@;
        assert(field_keys(f)[j + 1] == field_keys(f)[0]);
    }
    if f.len() > 1 {
        let d = f.drop_last();
        assert(field_keys(d) =~= field_keys(f).drop_last());
        lemma_fields_map_first(d);
        assert(d.drop_first() =~= f.drop_first().drop_last());
        assert(f.drop_first().last() == f.last());
        assert(f.last().0@ != f[0].0@) by {
            assert(field_keys(f)[f.len() - 1] != field_keys(f)[0]);
        }
        assert(fields_map(f) =~= fields_map(f.drop_first()).insert(f[0].0@, f[0].1@));
    } else {
        assert(f.drop_first() =~= Seq::<(String, String)>::empty());
        assert(f.drop_last() =~= Seq::<(String, String)>::empty());
        assert(fields_map(f) =~= fields_map(f.drop_first()).insert(f[0].0@, f[0].1@));
    }
}

proof fn lemma_fields_map_keys(f: Seq<(String, String)>)
    ensures
        forall|k: Seq<char>| #[trigger] fields_map(f).contains_key(k) <==> field_keys(f).contains(k),
        fields_map(f).dom().finite(),
    decreases f.len(),
{
    if f.len() > 0 {
        let d = f.drop_last();
        lemma_fields_map_keys(d);
        assert(field_keys(d) =~= field_keys(f).drop_last());
        assert forall|k: Seq<char>| #[trigger] fields_map(f).contains_key(k) <==> field_keys(f).contains(k) by {
            if field_keys(f).contains(k) {
                let i = choose|i: int| 0 <= i < field_keys(f).len() && field_keys(f)[i] == k;
                if i < f.len() - 1 {
                    assert(field_keys(d)[i] == k);
                }
            }
            if field_keys(d).contains(k) {
                let i = choose|i: int| 0 <= i < field_keys(d).len() && field_keys(d)[i] == k;
                assert(field_keys(f)[i] == k);
            }
            if k == f.last().0@ {
                assert(field_keys(f)[f.len() - 1] == k);
            }
        }
    }
}

proof fn lemma_listing_keys(v: Seq<(String, Vec<(String, String)>)>)
    ensures
        forall|k: Seq<char>| #[trigger] listing_map(v).contains_key(k) <==> listing_names(v).contains(k),
        listing_map(v).dom().finite(),
    decreases v.len(),
{
    if v.len() > 0 {
        let d = v.drop_last();
        lemma_listing_keys(d);
        assert(listing_names(d) =~= listing_names(v).drop_last());
        assert forall|k: Seq<char>| #[trigger] listing_map(v).contains_key(k) <==> listing_names(v).contains(k) by {
            if listing_names(v).contains(k) {
                let i = choose|i: int| 0 <= i < listing_names(v).len() && listing_names(v)[i] == k;
                if i < v.len() - 1 {
                    assert(listing_names(d)[i] == k);
                }
            }
            if listing_names(d).contains(k) {
                let i = choose|i: int| 0 <= i < listing_names(d).len() && listing_names(d)[i] == k;
                assert(listing_names(v)[i] == k);
            }
            if k == v.last().0@ {
                assert(listing_names(v)[v.len() - 1] == k);
            }
        }
    }
}

/// Parsed entries with distinct names record exactly the owners of the maps
/// they list.
proof fn lemma_parsed_owners(v: Seq<(String, Vec<(String, String)>)>)
    requires
        listing_names(v).no_duplicates(),
        forall|i: int| 0 <= i < v.len() ==> field_keys(#[trigger] v[i].1@).no_duplicates(),
    ensures
        parsed_map(v) == owners_of(listing_map(v)),
    decreases v.len(),
{
    if v.len() == 0 {
        assert(owners_of(listing_map(v)) =~= Map::<Seq<char>, Seq<char>>::empty());
    } else {
        let d = v.drop_last();
        assert(listing_names(d) =~= listing_names(v).drop_last());
        assert forall|i: int| 0 <= i < d.len() implies field_keys(#[trigger] d[i].1@).no_duplicates() by {
            assert(d[i] == v[i]);
        }
        lemma_parsed_owners(d);
        assert(field_keys(v[v.len() - 1].1@).no_duplicates());
        lemma_owner_field(v.last().1@);
        lemma_listing_keys(d);
        let name = v.last().0@;
        if listing_names(d).contains(name) {
            let j = choose|j: int| 0 <= j < listing_names(d).len() && listing_names(d)[j] == name;
            assert(listing_names(v)[j] == listing_names(v)[v.len() - 1]);
        }
        assert(!listing_map(d).contains_key(name));
        assert(listing_map(v) == listing_map(d).insert(name, fields_map(v.last().1@)));
        assert(owners_of(listing_map(v)) =~= parsed_map(v));
    }
}

/// The sidecar maps recording the owners `m`: each file name mapped to an
/// object holding its owner under `field`.
pub open spec fn sidecar_maps(m: Map<Seq<char>, Seq<char>>, field: Seq<char>) -> Map<
    Seq<char>,
    Map<Seq<char>, Seq<char>>,
> {
    Map::new(|k: Seq<char>| m.contains_key(k), |k: Seq<char>| Map::empty().insert(field, m[k]))
}

/// `serde_json::to_string` of the map from each entry's name to an object
/// holding its owner under the key `field`. Serialising maps with string
/// keys does not fail, and `serde_json::from_str` reads back the maps that
/// were written; the order of the members in the text (a hash map's
/// iteration order) is left open.
#[verifier::external_body]
fn render_sidecar(entries: &Vec<(String, String)>, field: &str) -> (r: Option<String>)
    ensures
        r is Some,
        entry_names(entries@).no_duplicates() ==> sidecar_json(r->0@) == Some(
            sidecar_maps(entries_map(entries@), field@),
        ),
{
    let payload: HashMap<&String, HashMap<&str, &String>> = entries
        .iter()
        .map(|(name, owner)| (name, HashMap::from([(field, owner)])))
        .collect();
    serde_json::to_string(&payload).ok()
}

/// The value of the first field named `owner`, if any.
pub open spec fn owner_field(fields: Seq<(String, String)>) -> Option<Seq<char>>
    decreases fields.len(),
{
    if fields.len() == 0 {
        None
    } else if fields[0].0@ == "owner"@ {
        Some(fields[0].1@)
    } else {
        owner_field(fields.drop_first())
    }
}

/// The index that parsed sidecar entries describe: each entry with an
/// owner field maps its name to that owner; a later entry for a name
/// replaces an earlier one.
pub open spec fn parsed_map(p: Seq<(String, Vec<(String, String)>)>) -> Map<Seq<char>, Seq<char>>
    decreases p.len(),
{
    if p.len() == 0 {
        Map::empty()
    } else {
        match owner_field(p.last().1@) {
            Some(o) => parsed_map(p.drop_last()).insert(p.last().0@, o),
            None => parsed_map(p.drop_last()),
        }
    }
}

fn find_owner(fields: &Vec<(String, String)>) -> (r: Option<String>)
    ensures
        r matches Some(o) ==> owner_field(fields@) == Some(o@),
        r is None ==> owner_field(fields@) is None,
{
    assert(fields@.subrange(0, fields@.len() as int) =~= fields@);
    let mut i: usize = 0;
    while i < fields.len()
        invariant
            i <= fields@.len(),
            owner_field(fields@) == owner_field(fields@.subrange(i as int, fields@.len() as int)),
        decreases fields@.len() - i,
    {
        let ghost rest = fields@.subrange(i as int, fields@.len() as int);
        assert(rest.drop_first() =~= fields@.subrange(i + 1, fields@.len() as int));
        assert(rest[0] == fields@[i as int]);
        if same_text(fields[i].0.as_str(), "owner") {
            return Some(fields[i].1.clone());
        }
        i = i + 1;
    }
    None
}

impl OutputIndex {
    /// The index described by parsed sidecar entries.
    pub fn from_parsed(parsed: &Vec<(String, Vec<(String, String)>)>) -> (r: OutputIndex)
        ensures
            r@ == parsed_map(parsed@),
    {
        let mut index = OutputIndex::new();
        let mut i: usize = 0;
        while i < parsed.len()
            invariant
                i <= parsed@.len(),
                index@ == parsed_map(parsed@.take(i as int)),
            decreases parsed@.len() - i,
        {
            assert(parsed@.take(i + 1).drop_last() =~= parsed@.take(i as int));
            assert(parsed@.take(i + 1).last() == parsed@[i as int]);
            match find_owner(&parsed[i].1) {
                Some(owner) => index.insert(parsed[i].0.as_str(), owner.as_str()),
                None => {},
            }
            i = i + 1;
        }
        assert(parsed@.take(parsed@.len() as int) =~= parsed@);
        index
    }

    /// The index stored in the sidecar text `raw` (`None` when there is no
    /// sidecar); text that does not parse yields an empty index.
    pub fn load(raw: Option<&str>) -> (r: OutputIndex)
        ensures
            r@ == match raw {
                Some(text) => match sidecar_json(text@) {
                    Some(m) => owners_of(m),
                    None => Map::<Seq<char>, Seq<char>>::empty(),
                },
                None => Map::<Seq<char>, Seq<char>>::empty(),
            },
    {
        match raw {
            Some(text) => match parse_sidecar(text) {
                Some(parsed) => {
                    proof {
                        lemma_parsed_owners(parsed@);
                    }
                    OutputIndex::from_parsed(&parsed)
                },
                None => OutputIndex::new(),
            },
            None => OutputIndex::new(),
        }
    }

    /// The sidecar text recording this index (always present; the type
    /// leaves room for a failed serialisation).
    pub fn sidecar_text(&self) -> (r: Option<String>)
        ensures
            r matches Some(t) && sidecar_json(t@) == Some(sidecar_maps(self@, "owner"@)),
    {
        let entries = self.entries();
        render_sidecar(&entries, "owner")
    }
}

proof fn lemma_same_entries(r: Seq<(String, String)>, e: Seq<(String, String)>)
    requires
        r.len() == e.len(),
        forall|j: int| 0 <= j < r.len() ==> (#[trigger] r[j]).0@ == e[j].0@ && r[j].1@ == e[j].1@,
    ensures
        entries_map(r) == entries_map(e),
        entry_names(r) == entry_names(e),
    decreases r.len(),
{
    assert(entry_names(r) =~= entry_names(e));
    if r.len() > 0 {
        lemma_same_entries(r.drop_last(), e.drop_last());
    }
}

/// Pruning keeps the index in step with the file cleanup: an entry stays
/// exactly when its file exists and the cleanup keeps the file (a file
/// modified in the future is kept by both).
pub proof fn lemma_prune_follows_cleanup(age: FileAge, ttl_seconds: u64)
    ensures
        keeps(age, ttl_seconds) <==> (age !is Missing && !expired(age, ttl_seconds)),
{
}

/// Recording an owner answers the ownership check for that owner and not
/// for any `other`, and leaves every other file's owner as it was.
pub proof fn lemma_owner_after_insert(
    before: Map<Seq<char>, Seq<char>>,
    after: Map<Seq<char>, Seq<char>>,
    name: Seq<char>,
    owner: Seq<char>,
    other: Seq<char>,
)
    requires
        after == before.insert(name, owner),
    ensures
        after.contains_key(name) && after[name] == owner,
        other != owner ==> !(after.contains_key(name) && after[name] == other),
        forall|k: Seq<char>| #[trigger] after.contains_key(k) && k != name ==> before.contains_key(k) && after[k] == before[k],
{
}

/// Reloading a saved index gives the index back: the owners recorded in
/// the sidecar maps of `m` are `m`.
pub proof fn lemma_sidecar_round_trip(m: Map<Seq<char>, Seq<char>>)
    ensures
        owners_of(sidecar_maps(m, "owner"@)) == m,
{
    assert(owners_of(sidecar_maps(m, "owner"@)) =~= m);
}

} // verus!
