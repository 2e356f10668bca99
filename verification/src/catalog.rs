//! The in-memory catalog store.
//!
//! `AppData` owns the ordered entries loaded from, and saved to, the
//! record file. Each entry carries a unique id minted at creation —
//! ids are not persisted, so every load produces new identities —
//! and keeps its parsed description in sync with the raw text:
//! `description == parse(description_raw)` at every point a caller
//! can observe.

use crate::markup::{
    parse_description_elements, parse_spec, DescriptionElement, ElementView,
};
use crate::record::{
    decode_lines, decode_spec, encodable, encode_lines, encode_lines_spec, join_lines,
    join_lines_spec, lemma_decode_encode, lemma_decode_records_len, lemma_split_from_len, lemma_text_round_trip,
    split_lines, split_lines_spec, LoadError, RawRecord, RawRecordView, FILE_VERSION,
};
use vstd::prelude::*;
use vstd::string::StringExecFns;

verus! {

/// One key/description record of the catalog.
#[derive(Debug, PartialEq)]
pub struct DataEntry {
    pub id: u64,
    pub key: String,
    pub description: Vec<DescriptionElement>,
    pub description_raw: String,
}

/// Mathematical image of a `DataEntry`.
pub struct DataEntryView {
    pub id: u64,
    pub key: Seq<char>,
    pub description: Seq<ElementView>,
    pub description_raw: Seq<char>,
}

impl View for DataEntry {
    type V = DataEntryView;

    open spec fn view(&self) -> DataEntryView {
        DataEntryView {
            id: self.id,
            key: self.key@,
            description: self.description.deep_view(),
            description_raw: self.description_raw@,
        }
    }
}

impl DeepView for DataEntry {
    type V = DataEntryView;

    open spec fn deep_view(&self) -> DataEntryView {
        self.view()
    }
}

/// An entry is well-formed when its parsed description is the parse
/// of its raw text.
pub open spec fn entry_wf(e: DataEntryView) -> bool {
    e.description == parse_spec(e.description_raw)
}

/// A fresh clone of the parsed elements.
fn clone_elements(v: &Vec<DescriptionElement>) -> (r: Vec<DescriptionElement>)
    ensures
        r.deep_view() == v.deep_view(),
{
    let mut r: Vec<DescriptionElement> = Vec::new();
    let mut i: usize = 0;
    while i < v.len()
        invariant
            i <= v@.len(),
            r.deep_view() == v.deep_view().take(i as int),
        decreases v@.len() - i,
    {
        let ghost r0 = r@;
        let c = v[i].clone();
        let ghost cv = c@;
        proof {
            assert(cv == v@[i as int]@);
        }
        r.push(c);
        proof {
            assert(r.deep_view().len() == r@.len());
            assert(v.deep_view().len() == v@.len());
            assert(v.deep_view().take(i as int).len() == i);
            assert(r0.len() == i);
            assert(r@.len() == i + 1);
            assert(r@[i as int]@ == cv);
            assert(v.deep_view()[i as int] == v@[i as int]@);
            assert(r.deep_view() =~= v.deep_view().take(i + 1));
        }
        i = i + 1;
    }
    proof {
        assert(v.deep_view().take(v@.len() as int) =~= v.deep_view());
    }
    r
}

impl Clone for DataEntry {
    fn clone(&self) -> (r: Self)
        ensures
            r@ == self@,
    {
        let r = DataEntry {
            id: self.id,
            key: self.key.clone(),
            description: clone_elements(&self.description),
            description_raw: self.description_raw.clone(),
        };
        proof {
            assert(r@ =~= self@);
        }
        r
    }
}

impl DataEntry {
    /// A well-formed entry with the given id: the description is
    /// parsed from the raw text at creation.
    pub fn new(id: u64, key: &str, description: &str) -> (e: DataEntry)
        ensures
            e@.id == id,
            e@.key == key@,
            e@.description_raw == description@,
            entry_wf(e@),
    {
        DataEntry {
            id,
            key: String::from_str(key),
            description: parse_description_elements(String::from_str(description)),
            description_raw: String::from_str(description),
        }
    }

    /// Replace the raw description, re-parsing to keep the derived
    /// view in sync.
    pub fn set_description(&mut self, description: &str)
        ensures
            final(self)@.id == old(self)@.id,
            final(self)@.key == old(self)@.key,
            final(self)@.description_raw == description@,
            entry_wf(final(self)@),
    {
        self.description_raw = String::from_str(description);
        self.description = parse_description_elements(String::from_str(description));
    }
}

/// Index of the first entry with the given id, or `-1` if absent.
pub open spec fn index_of_id(s: Seq<DataEntryView>, id: u64) -> int
    decreases s.len(),
{
    if s.len() == 0 {
        -1
    } else if s[0].id == id {
        0
    } else {
        let r = index_of_id(s.drop_first(), id);
        if r == -1 {
            -1
        } else {
            r + 1
        }
    }
}

pub proof fn lemma_index_of_id(s: Seq<DataEntryView>, id: u64)
    ensures
        -1 <= index_of_id(s, id) < s.len(),
        index_of_id(s, id) == -1 ==> forall|i: int|
            0 <= i < s.len() ==> (#[trigger] s[i]).id != id,
        index_of_id(s, id) >= 0 ==> s[index_of_id(s, id)].id == id,
    decreases s.len(),
{
    if s.len() > 0 && s[0].id != id {
        lemma_index_of_id(s.drop_first(), id);
        let r = index_of_id(s.drop_first(), id);
        if r == -1 {
            assert forall|i: int| 0 <= i < s.len() implies (#[trigger] s[i]).id != id by {
                if i > 0 {
                    assert(s.drop_first()[i - 1] == s[i]);
                }
            }
        } else {
            assert(s.drop_first()[r] == s[r + 1]);
        }
    }
}

/// A scan that found the first matching index pins `index_of_id`.
proof fn lemma_index_of_id_exact(s: Seq<DataEntryView>, id: u64, i: int)
    requires
        0 <= i < s.len(),
        s[i].id == id,
        forall|m: int| 0 <= m < i ==> (#[trigger] s[m]).id != id,
    ensures
        index_of_id(s, id) == i,
    decreases s.len(),
{
    if i > 0 {
        assert(s[0].id != id);
        assert(s.drop_first()[i - 1] == s[i]);
        assert forall|m: int| 0 <= m < i - 1 implies (#[trigger] s.drop_first()[m]).id != id by {
            assert(s.drop_first()[m] == s[m + 1]);
        }
        lemma_index_of_id_exact(s.drop_first(), id, i - 1);
    }
}

/// The records that would stand for these entries in the file: each
/// entry's key and raw description.
pub open spec fn raw_records_of(entries: Seq<DataEntryView>) -> Seq<RawRecordView> {
    entries.map_values(
        |e: DataEntryView| RawRecordView { key: e.key, description: e.description_raw },
    )
}

/// The catalog is well-formed: its version is within the format
/// version, every entry is well-formed with an id below the mint
/// counter, and ids are pairwise distinct.
pub open spec fn catalog_wf(c: AppDataView) -> bool {
    &&& c.version <= FILE_VERSION
    &&& forall|i: int|
        0 <= i < c.entries.len() ==> entry_wf(#[trigger] c.entries[i]) && c.entries[i].id
            < c.next_id
    &&& forall|i: int, j: int|
        0 <= i < j < c.entries.len() ==> (#[trigger] c.entries[i]).id != (#[trigger]
        c.entries[j]).id
}

/// Mathematical image of an `AppData`.
pub struct AppDataView {
    pub version: u32,
    pub entries: Seq<DataEntryView>,
    pub next_id: u64,
}

/// The catalog: the ordered entries, the version it saves with, and
/// the counter that mints entry ids.
pub struct AppData {
    version: u32,
    entries: Vec<DataEntry>,
    next_id: u64,
}

impl View for AppData {
    type V = AppDataView;

    closed spec fn view(&self) -> AppDataView {
        AppDataView {
            version: self.version,
            entries: self.entries.deep_view(),
            next_id: self.next_id,
        }
    }
}

impl AppData {
    /// An empty catalog at the current format version.
    pub fn new() -> (c: AppData)
        ensures
            c@.version == FILE_VERSION,
            c@.entries == Seq::<DataEntryView>::empty(),
            c@.next_id == 0,
            catalog_wf(c@),
    {
        let c = AppData { version: FILE_VERSION, entries: Vec::new(), next_id: 0 };
        proof {
            assert(c@.entries =~= Seq::<DataEntryView>::empty());
        }
        c
    }

    /// The version the catalog will be saved with.
    pub fn version(&self) -> (v: u32)
        ensures
            v == self@.version,
    {
        self.version
    }

    /// The entries, in catalog order. Display orderings are derived
    /// views and never reorder this sequence.
    pub fn entries(&self) -> (r: &Vec<DataEntry>)
        ensures
            r.deep_view() == self@.entries,
    {
        &self.entries
    }

    /// Number of entries.
    pub fn len(&self) -> (n: usize)
        ensures
            n == self@.entries.len(),
    {
        self.entries.len()
    }

    /// Can another id be minted? False only once the counter is
    /// exhausted.
    pub fn can_mint(&self) -> (r: bool)
        ensures
            r == (self@.next_id < u64::MAX),
    {
        self.next_id < u64::MAX
    }

    /// Can a text of `text_len` characters be loaded without
    /// exhausting the id counter?
    pub fn can_load(&self, text_len: usize) -> (r: bool)
        ensures
            r == (self@.next_id + text_len + 1 <= u64::MAX),
    {
        u64::MAX - self.next_id >= 1 && (u64::MAX - self.next_id - 1) as u128 >= text_len as u128
    }

    /// Mint a fresh id: one no current entry carries.
    pub fn mint_id(&mut self) -> (id: u64)
        requires
            catalog_wf(old(self)@),
            old(self)@.next_id < u64::MAX,
        ensures
            catalog_wf(final(self)@),
            id == old(self)@.next_id,
            final(self)@.version == old(self)@.version,
            final(self)@.entries == old(self)@.entries,
            final(self)@.next_id == old(self)@.next_id + 1,
            forall|i: int|
                0 <= i < final(self)@.entries.len() ==> (#[trigger]
                final(self)@.entries[i]).id != id,
    {
        let id = self.next_id;
        self.next_id = self.next_id + 1;
        proof {
            assert(self@.entries == old(self)@.entries);
            assert forall|i: int|
                0 <= i < self@.entries.len() implies entry_wf(#[trigger] self@.entries[i])
                && self@.entries[i].id < self@.next_id && self@.entries[i].id != id by {
                assert(old(self)@.entries[i] == self@.entries[i]);
            }
            assert forall|i: int, j: int|
                0 <= i < j < self@.entries.len() implies (#[trigger] self@.entries[i]).id
                != (#[trigger] self@.entries[j]).id by {
                assert(old(self)@.entries[i] == self@.entries[i]);
                assert(old(self)@.entries[j] == self@.entries[j]);
            }
        }
        id
    }

    /// Insert or update: an entry with the same id is replaced in
    /// place (its position unchanged); otherwise the entry is
    /// appended. The id must have been minted by this catalog.
    pub fn upsert(&mut self, entry: DataEntry)
        requires
            catalog_wf(old(self)@),
            entry_wf(entry@),
            entry@.id < old(self)@.next_id,
        ensures
            catalog_wf(final(self)@),
            final(self)@.version == old(self)@.version,
            final(self)@.next_id == old(self)@.next_id,
            index_of_id(old(self)@.entries, entry@.id) == -1 ==> final(self)@.entries == old(
                self,
            )@.entries.push(entry@),
            index_of_id(old(self)@.entries, entry@.id) >= 0 ==> final(self)@.entries == old(
                self,
            )@.entries.update(index_of_id(old(self)@.entries, entry@.id), entry@),
    {
        let ghost entries0 = self@.entries;
        let ghost eid = entry@.id;
        let mut i: usize = 0;
        while i < self.entries.len()
            invariant
                i <= entries0.len(),
                self@ == old(self)@,
                entries0 == self@.entries,
                eid == entry@.id,
                catalog_wf(old(self)@),
                entry_wf(entry@),
                entry@.id < old(self)@.next_id,
                forall|m: int| 0 <= m < i ==> (#[trigger] entries0[m]).id != eid,
            decreases entries0.len() - i,
        {
            if self.entries[i].id == entry.id {
                proof {
                    lemma_index_of_id_exact(entries0, eid, i as int);
                }
                self.entries.remove(i);
                self.entries.insert(i, entry);
                proof {
                    assert(self@.entries =~= entries0.update(i as int, entry@));
                    assert forall|p: int, q: int|
                        0 <= p < q < self@.entries.len() implies (#[trigger]
                    self@.entries[p]).id != (#[trigger] self@.entries[q]).id by {
                        assert(entries0[p].id != entries0[q].id);
                    }
                }
                return ;
            }
            i = i + 1;
        }
        proof {
            lemma_index_of_id(entries0, eid);
            if index_of_id(entries0, eid) >= 0 {
                assert(entries0[index_of_id(entries0, eid)].id == eid);
                assert(false);
            }
        }
        self.entries.push(entry);
        proof {
            assert(self@.entries =~= entries0.push(entry@));
        }
    }

    /// Remove the entry with the given id; a no-op when absent.
    pub fn remove(&mut self, id: u64)
        requires
            catalog_wf(old(self)@),
        ensures
            catalog_wf(final(self)@),
            final(self)@.version == old(self)@.version,
            final(self)@.next_id == old(self)@.next_id,
            index_of_id(old(self)@.entries, id) == -1 ==> final(self)@ == old(self)@,
            index_of_id(old(self)@.entries, id) >= 0 ==> final(self)@.entries == old(
                self,
            )@.entries.remove(index_of_id(old(self)@.entries, id)),
    {
        let ghost entries0 = self@.entries;
        let mut i: usize = 0;
        while i < self.entries.len()
            invariant
                i <= entries0.len(),
                self@ == old(self)@,
                entries0 == self@.entries,
                catalog_wf(old(self)@),
                forall|m: int| 0 <= m < i ==> (#[trigger] entries0[m]).id != id,
            decreases entries0.len() - i,
        {
            if self.entries[i].id == id {
                proof {
                    lemma_index_of_id_exact(entries0, id, i as int);
                }
                self.entries.remove(i);
                proof {
                    assert(self@.entries =~= entries0.remove(i as int));
                    assert forall|p: int|
                        0 <= p < self@.entries.len() implies entry_wf(#[trigger]
                    self@.entries[p]) && self@.entries[p].id < self@.next_id by {
                        if p < i {
                            assert(self@.entries[p] == entries0[p]);
                        } else {
                            assert(self@.entries[p] == entries0[p + 1]);
                        }
                    }
                    assert forall|p: int, q: int|
                        0 <= p < q < self@.entries.len() implies (#[trigger]
                    self@.entries[p]).id != (#[trigger] self@.entries[q]).id by {
                        let p0 = if p < i { p } else { p + 1 };
                        let q0 = if q < i { q } else { q + 1 };
                        assert(self@.entries[p] == entries0[p0]);
                        assert(self@.entries[q] == entries0[q0]);
                    }
                }
                return ;
            }
            i = i + 1;
        }
        proof {
            lemma_index_of_id(entries0, id);
            if index_of_id(entries0, id) >= 0 {
                assert(entries0[index_of_id(entries0, id)].id == id);
                assert(false);
            }
        }
    }

    /// The records that stand for the current entries, for encoding.
    fn raw_records(&self) -> (r: Vec<RawRecord>)
        ensures
            r.deep_view() == raw_records_of(self@.entries),
    {
        let ghost entries0 = self@.entries;
        let mut r: Vec<RawRecord> = Vec::new();
        let mut i: usize = 0;
        while i < self.entries.len()
            invariant
                i <= entries0.len(),
                entries0 == self@.entries,
                r@.len() == i,
                forall|k: int|
                    0 <= k < i ==> (#[trigger] r.deep_view()[k]) == (RawRecordView {
                        key: entries0[k].key,
                        description: entries0[k].description_raw,
                    }),
            decreases entries0.len() - i,
        {
            let rec = RawRecord {
                key: self.entries[i].key.clone(),
                description: self.entries[i].description_raw.clone(),
            };
            let ghost r0 = r.deep_view();
            let ghost rv = rec@;
            r.push(rec);
            proof {
                assert(r@[i as int]@ == rv);
                assert forall|k: int| 0 <= k < i implies #[trigger] r.deep_view()[k] == r0[k] by {
                    assert(r.deep_view()[k] == r@[k].deep_view());
                }
            }
            i = i + 1;
        }
        proof {
            assert(r.deep_view() =~~= raw_records_of(entries0));
        }
        r
    }

    /// Encode the catalog as its file lines, in entry order. Saving
    /// never alters the entries.
    pub fn save_to_lines(&self) -> (r: Vec<String>)
        ensures
            r.deep_view() == encode_lines_spec(self@.version, raw_records_of(self@.entries)),
    {
        let raws = self.raw_records();
        encode_lines(self.version, &raws)
    }

    /// Encode the catalog as one file text, in entry order.
    pub fn save_to_text(&self) -> (r: String)
        ensures
            r@ == join_lines_spec(
                encode_lines_spec(self@.version, raw_records_of(self@.entries)),
            ),
    {
        let raws = self.raw_records();
        let lines = encode_lines(self.version, &raws);
        join_lines(&lines)
    }

    /// Replace the whole catalog with the decoded contents of the
    /// lines: destructive on success — unsaved edits are discarded —
    /// and a no-op on any decode error. Every loaded entry gets a
    /// fresh id. The file's version only gates the load; the
    /// catalog's own save version stays what it was.
    pub fn load_from_lines(&mut self, lines: &Vec<String>) -> (r: Result<(), LoadError>)
        requires
            catalog_wf(old(self)@),
            old(self)@.next_id + lines@.len() <= u64::MAX,
        ensures
            catalog_wf(final(self)@),
            match r {
                Ok(_) => {
                    &&& decode_spec(lines.deep_view()) is Ok
                    &&& {
                        let p = decode_spec(lines.deep_view())->Ok_0;
                        &&& final(self)@.version == old(self)@.version
                        &&& final(self)@.entries.len() == p.1.len()
                        &&& forall|i: int|
                            0 <= i < p.1.len() ==> {
                                &&& (#[trigger] final(self)@.entries[i]).key == p.1[i].key
                                &&& final(self)@.entries[i].description_raw == p.1[i].description
                                &&& final(self)@.entries[i].id == old(self)@.next_id + i
                            }
                    }
                },
                Err(e) => decode_spec(lines.deep_view()) == Err::<
                    (u32, Seq<RawRecordView>),
                    LoadError,
                >(e) && final(self)@ == old(self)@,
            },
    {
        let ghost l = lines.deep_view();
        match decode_lines(lines) {
            Err(e) => Err(e),
            Ok(vr) => {
                let (_version, records) = vr;
                let base = self.next_id;
                proof {
                    lemma_decode_records_len(l, 1);
                }
                let mut new_entries: Vec<DataEntry> = Vec::new();
                let mut i: usize = 0;
                while i < records.len()
                    invariant
                        i <= records@.len(),
                        base + records.deep_view().len() <= u64::MAX,
                        new_entries@.len() == i,
                        forall|k: int|
                            0 <= k < i ==> {
                                &&& entry_wf(#[trigger] new_entries.deep_view()[k])
                                &&& new_entries.deep_view()[k].key == records.deep_view()[k].key
                                &&& new_entries.deep_view()[k].description_raw
                                    == records.deep_view()[k].description
                                &&& new_entries.deep_view()[k].id == base + k
                            },
                    decreases records@.len() - i,
                {
                    let e = DataEntry::new(
                        base + (i as u64),
                        records[i].key.as_str(),
                        records[i].description.as_str(),
                    );
                    let ghost ne0 = new_entries.deep_view();
                    let ghost ev = e@;
                    new_entries.push(e);
                    proof {
                        assert(new_entries@[i as int]@ == ev);
                        assert(records@[i as int]@ == records.deep_view()[i as int]);
                        assert forall|k: int|
                            0 <= k < i implies #[trigger] new_entries.deep_view()[k]
                            == ne0[k] by {
                            assert(new_entries.deep_view()[k] == new_entries@[k].deep_view());
                        }
                    }
                    i = i + 1;
                }
                self.entries = new_entries;
                self.next_id = base + (records.len() as u64);
                proof {
                    assert(self@.entries == new_entries.deep_view());
                    assert(self@.entries.len() == records.deep_view().len());
                    assert(catalog_wf(self@));
                }
                Ok(())
            },
        }
    }

    /// Replace the whole catalog with the decoded contents of one
    /// file text; as `load_from_lines`, over the text's lines.
    pub fn load_from_text(&mut self, text: &str) -> (r: Result<(), LoadError>)
        requires
            catalog_wf(old(self)@),
            old(self)@.next_id + text@.len() + 1 <= u64::MAX,
        ensures
            catalog_wf(final(self)@),
            match r {
                Ok(_) => {
                    &&& decode_spec(split_lines_spec(text@)) is Ok
                    &&& {
                        let p = decode_spec(split_lines_spec(text@))->Ok_0;
                        &&& final(self)@.version == old(self)@.version
                        &&& final(self)@.entries.len() == p.1.len()
                        &&& forall|i: int|
                            0 <= i < p.1.len() ==> {
                                &&& (#[trigger] final(self)@.entries[i]).key == p.1[i].key
                                &&& final(self)@.entries[i].description_raw == p.1[i].description
                                &&& final(self)@.entries[i].id == old(self)@.next_id + i
                            }
                    }
                },
                Err(e) => decode_spec(split_lines_spec(text@)) == Err::<
                    (u32, Seq<RawRecordView>),
                    LoadError,
                >(e) && final(self)@ == old(self)@,
            },
    {
        proof {
            lemma_split_from_len(text@, 0);
        }
        let lines = split_lines(text);
        self.load_from_lines(&lines)
    }

    /// Borrow the entry with the given id, if present.
    pub fn get_entry(&self, id: u64) -> (r: Option<&DataEntry>)
        ensures
            match r {
                Some(e) => index_of_id(self@.entries, id) >= 0 && e@ == self@.entries[index_of_id(
                    self@.entries,
                    id,
                )],
                None => index_of_id(self@.entries, id) == -1,
            },
    {
        let ghost entries0 = self@.entries;
        let mut i: usize = 0;
        while i < self.entries.len()
            invariant
                i <= entries0.len(),
                entries0 == self@.entries,
                forall|m: int| 0 <= m < i ==> (#[trigger] entries0[m]).id != id,
            decreases entries0.len() - i,
        {
            if self.entries[i].id == id {
                proof {
                    lemma_index_of_id_exact(entries0, id, i as int);
                }
                return Some(&self.entries[i]);
            }
            i = i + 1;
        }
        proof {
            lemma_index_of_id(entries0, id);
            if index_of_id(entries0, id) >= 0 {
                assert(entries0[index_of_id(entries0, id)].id == id);
                assert(false);
            }
        }
        None
    }
}

/// Law: the save/load round trip restores every entry's key and raw
/// description, in order (ids are minted fresh on load, so they may
/// differ). It holds for every catalog whose entries are encodable:
/// non-empty keys without a trailing `\`, both fields free of
/// surrounding whitespace.
pub proof fn lemma_save_load_round_trip(version: u32, entries: Seq<DataEntryView>)
    requires
        version <= FILE_VERSION,
        forall|i: int|
            0 <= i < entries.len() ==> encodable(#[trigger] raw_records_of(entries)[i]),
    ensures
        decode_spec(encode_lines_spec(version, raw_records_of(entries))) == Ok::<
            (u32, Seq<RawRecordView>),
            LoadError,
        >((version, raw_records_of(entries))),
{
    lemma_decode_encode(version, raw_records_of(entries));
}

/// Law: the same round trip at the file-text level — what
/// `save_to_text` followed by `load_from_text` decodes — provided
/// the fields are also free of newlines, which would break the line
/// format.
pub proof fn lemma_save_load_text_round_trip(version: u32, entries: Seq<DataEntryView>)
    requires
        version <= FILE_VERSION,
        forall|i: int|
            0 <= i < entries.len() ==> encodable(#[trigger] raw_records_of(entries)[i]),
        forall|i: int, c: int|
            0 <= i < entries.len() && 0 <= c < raw_records_of(entries)[i].key.len()
                ==> #[trigger] raw_records_of(entries)[i].key[c] != '\n',
        forall|i: int, c: int|
            0 <= i < entries.len() && 0 <= c < raw_records_of(entries)[i].description.len()
                ==> #[trigger] raw_records_of(entries)[i].description[c] != '\n',
    ensures
        decode_spec(
            split_lines_spec(
                join_lines_spec(encode_lines_spec(version, raw_records_of(entries))),
            ),
        ) == Ok::<(u32, Seq<RawRecordView>), LoadError>((version, raw_records_of(entries))),
{
    lemma_text_round_trip(version, raw_records_of(entries));
}

} // verus!
