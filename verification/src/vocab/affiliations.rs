//! Conversion of an affiliations vocabulary.
//!
//! A raw record, as read from a registry dump, holds an identifier, a
//! primary name, per-language labels and acronyms. Conversion sanitizes
//! every human-readable string into an ASCII approximation, derives the
//! record identifier from the last path segment of the source identifier,
//! aggregates the labels into a multilingual title mapping, and selects the
//! first non-empty acronym.

use crate::title::{
    lemma_lookup_upsert_other, lemma_lookup_upsert_same, lookup, upsert, TitleMap,
};
use vstd::prelude::*;
use vstd::string::*;
use vstd::utf8::is_ascii_chars;

verus! {

/// A raw affiliation record from the source registry dump, after null or
/// absent fields have been replaced by their defaults.
#[derive(Debug)]
pub struct AffiliationItem {
    pub id: String,
    pub name: String,
    pub labels: Vec<Label>,
    pub acronyms: Vec<String>,
}

/// A human-readable name for an affiliation in one language.
#[derive(Debug)]
pub struct Label {
    pub iso639: String,
    pub label: String,
}

/// A scheme-tagged identifier in the output shape.
#[derive(Debug)]
pub struct Identifier {
    pub identifier: String,
    pub scheme: String,
}

/// One converted record in the output shape.
#[derive(Debug)]
pub struct YamlEntry {
    pub id: String,
    pub name: String,
    pub title: TitleMap,
    pub identifiers: Vec<Identifier>,
    pub acronym: Option<String>,
}

/// The ASCII transliteration that `deunicode::deunicode` computes; it
/// depends on the input characters alone.
pub uninterp spec fn translit_of(s: Seq<char>) -> Seq<char>;

/// Relies on deunicode::deunicode. Its documentation guarantees that the
/// returned string is valid ASCII and that every ASCII character is mapped
/// to itself, so an all-ASCII input comes back unchanged.
#[verifier::external_body]
fn translit(s: &str) -> (r: String)
    ensures
        r@ == translit_of(s@),
        is_ascii_chars(r@),
        is_ascii_chars(s@) ==> r@ == s@,
{
    deunicode::deunicode(s)
}

/// Sanitize a string by transliterating ambiguous Unicode characters (such
/// as Cyrillic) into their approximate ASCII equivalents.
///
/// The result is always ASCII, and an input that is already ASCII comes
/// back unchanged; together the two clauses make sanitization idempotent.
pub fn sanitize(s: &str) -> (r: String)
    ensures
        r@ == translit_of(s@),
        is_ascii_chars(r@),
        is_ascii_chars(s@) ==> r@ == s@,
{
    translit(s)
}

/// The part of `s` after its last `/`; all of `s` when it holds none.
pub open spec fn last_segment_of(s: Seq<char>) -> Seq<char>
    decreases s.len(),
{
    if s.len() == 0 {
        s
    } else if s[s.len() - 1] == '/' {
        Seq::empty()
    } else {
        last_segment_of(s.drop_last()).push(s[s.len() - 1])
    }
}

proof fn lemma_last_segment_suffix(s: Seq<char>, cut: int)
    requires
        0 <= cut <= s.len(),
        cut == 0 || s[cut - 1] == '/',
        forall|j: int| cut <= j < s.len() ==> s[j] != '/',
    ensures
        last_segment_of(s) =~= s.subrange(cut, s.len() as int),
    decreases s.len(),
{
    if s.len() == cut {
        if cut != 0 {
            assert(s[s.len() - 1] == '/');
        }
    } else {
        assert(s[s.len() - 1] != '/');
        lemma_last_segment_suffix(s.drop_last(), cut);
        assert(s.subrange(cut, s.len() as int) =~= s.drop_last().subrange(
            cut,
            s.len() - 1,
        ).push(s[s.len() - 1]));
    }
}

/// The last `/`-delimited segment of `s`.
pub fn last_segment(s: &str) -> (r: String)
    ensures
        r@ == last_segment_of(s@),
{
    let n = s.unicode_len();
    let mut cut: usize = 0;
    let mut i: usize = 0;
    while i < n
        invariant
            cut <= i <= n,
            n == s@.len(),
            cut == 0 || s@[cut - 1] == '/',
            forall|j: int| cut <= j < i ==> s@[j] != '/',
        decreases n - i,
    {
        if s.get_char(i) == '/' {
            cut = i + 1;
        }
        i += 1;
    }
    proof {
        lemma_last_segment_suffix(s@, cut as int);
    }
    let seg = s.substring_char(cut, n);
    seg.to_owned()
}

/// The fixed language key under which every title holds the primary name.
pub open spec fn en_key() -> Seq<char> {
    seq!['e', 'n']
}

/// The fixed identifier-scheme literal of this vocabulary.
pub open spec fn scheme_key() -> Seq<char> {
    seq!['a', 'f', 'f', 'i', 'l', 'i', 'a', 't', 'i', 'o', 'n']
}

/// A label goes into the title when both its sanitized language code and
/// its sanitized text are non-empty.
pub open spec fn label_included(l: Label) -> bool {
    translit_of(l.iso639@).len() > 0 && translit_of(l.label@).len() > 0
}

/// The title pairs of a record: the included labels folded, in source
/// order, over the initial `"en"` entry that holds the sanitized primary
/// name. A repeated language code overwrites the earlier entry.
pub open spec fn title_of(name: Seq<char>, labels: Seq<Label>) -> Seq<(Seq<char>, Seq<char>)>
    decreases labels.len(),
{
    if labels.len() == 0 {
        seq![(en_key(), translit_of(name))]
    } else {
        let prev = title_of(name, labels.drop_last());
        let l = labels.last();
        if label_included(l) {
            upsert(prev, translit_of(l.iso639@), translit_of(l.label@))
        } else {
            prev
        }
    }
}

/// The sanitized form of the first acronym whose raw value is non-empty;
/// nothing when every raw acronym is empty.
pub open spec fn acronym_of(acs: Seq<String>) -> Option<Seq<char>>
    decreases acs.len(),
{
    if acs.len() == 0 {
        None
    } else if acs[0]@.len() > 0 {
        Some(translit_of(acs[0]@))
    } else {
        acronym_of(acs.drop_first())
    }
}

/// Every field of a converted record, pinned from the raw record it came
/// from.
pub open spec fn entry_matches(e: YamlEntry, it: AffiliationItem) -> bool {
    &&& e.id@ == last_segment_of(translit_of(it.id@))
    &&& e.name@ == translit_of(it.name@)
    &&& e.title@ == title_of(it.name@, it.labels@)
    &&& e.identifiers@.len() == 1
    &&& e.identifiers@[0].identifier@ == e.id@
    &&& e.identifiers@[0].scheme@ == scheme_key()
    &&& match e.acronym {
        Some(a) => acronym_of(it.acronyms@) == Some(a@),
        None => acronym_of(it.acronyms@) is None,
    }
}

/// The position of the first acronym whose raw value is non-empty.
fn first_nonempty_index(acs: &Vec<String>) -> (r: Option<usize>)
    ensures
        match r {
            Some(j) => {
                &&& j < acs@.len()
                &&& acs@[j as int]@.len() > 0
                &&& forall|m: int| 0 <= m < j ==> (#[trigger] acs@[m])@.len() == 0
            },
            None => forall|m: int| 0 <= m < acs@.len() ==> (#[trigger] acs@[m])@.len() == 0,
        },
{
    let n = acs.len();
    let mut i: usize = 0;
    while i < n
        invariant
            i <= n,
            n == acs@.len(),
            forall|m: int| 0 <= m < i ==> (#[trigger] acs@[m])@.len() == 0,
        decreases n - i,
    {
        if !acs[i].as_str().is_empty() {
            return Some(i);
        }
        i += 1;
    }
    None
}

/// The acronym selected is the sanitized form of the first acronym whose
/// raw value is non-empty.
pub proof fn lemma_acronym_of_first(acs: Seq<String>, j: int)
    requires
        0 <= j < acs.len(),
        acs[j]@.len() > 0,
        forall|m: int| 0 <= m < j ==> (#[trigger] acs[m])@.len() == 0,
    ensures
        acronym_of(acs) == Some(translit_of(acs[j]@)),
    decreases acs.len(),
{
    if j == 0 {
    } else {
        assert(forall|m: int| 0 <= m < j - 1 ==> (#[trigger] acs.drop_first()[m])@.len() == 0);
        lemma_acronym_of_first(acs.drop_first(), j - 1);
    }
}

proof fn lemma_acronym_of_none(acs: Seq<String>)
    requires
        forall|m: int| 0 <= m < acs.len() ==> (#[trigger] acs[m])@.len() == 0,
    ensures
        acronym_of(acs) is None,
    decreases acs.len(),
{
    if acs.len() == 0 {
    } else {
        assert(forall|m: int|
            0 <= m < acs.drop_first().len() ==> (#[trigger] acs.drop_first()[m])@.len() == 0);
        lemma_acronym_of_none(acs.drop_first());
    }
}

/// An acronym is selected exactly when at least one raw acronym is
/// non-empty.
pub proof fn lemma_acronym_present(acs: Seq<String>)
    ensures
        acronym_of(acs) is Some <==> exists|i: int|
            0 <= i < acs.len() && (#[trigger] acs[i])@.len() > 0,
    decreases acs.len(),
{
    if acs.len() == 0 {
    } else if acs[0]@.len() > 0 {
        assert(0 <= 0 < acs.len() && acs[0]@.len() > 0);
    } else {
        lemma_acronym_present(acs.drop_first());
        if exists|i: int| 0 <= i < acs.len() && (#[trigger] acs[i])@.len() > 0 {
            let i = choose|i: int| 0 <= i < acs.len() && (#[trigger] acs[i])@.len() > 0;
            assert(acs.drop_first()[i - 1]@.len() > 0);
        }
        if acronym_of(acs) is Some {
            let i = choose|i: int|
                0 <= i < acs.drop_first().len() && (#[trigger] acs.drop_first()[i])@.len() > 0;
            assert(acs[i + 1]@.len() > 0);
        }
    }
}

/// The title's `"en"` entry always holds the sanitized primary name, as
/// long as no included label has the sanitized language code `"en"` itself
/// (such a label would overwrite the entry).
pub proof fn lemma_title_en(name: Seq<char>, labels: Seq<Label>)
    requires
        forall|i: int|
            0 <= i < labels.len() ==> !(label_included(#[trigger] labels[i]) && translit_of(
                labels[i].iso639@,
            ) == en_key()),
    ensures
        lookup(title_of(name, labels), en_key()) == Some(translit_of(name)),
    decreases labels.len(),
{
    if labels.len() == 0 {
        assert(title_of(name, labels)[0] == (en_key(), translit_of(name)));
    } else {
        let sub = labels.drop_last();
        assert(forall|i: int| 0 <= i < sub.len() ==> sub[i] == labels[i]);
        lemma_title_en(name, sub);
        let l = labels.last();
        if label_included(l) {
            lemma_lookup_upsert_other(
                title_of(name, sub),
                translit_of(l.iso639@),
                translit_of(l.label@),
                en_key(),
            );
        }
    }
}

/// A language code other than `"en"` is present in the title exactly when
/// some label both has that sanitized code and qualifies for inclusion: a
/// label whose sanitized code or sanitized text is empty leaves no entry.
pub proof fn lemma_title_keys(name: Seq<char>, labels: Seq<Label>, k: Seq<char>)
    requires
        k != en_key(),
    ensures
        lookup(title_of(name, labels), k) is Some <==> exists|i: int|
            0 <= i < labels.len() && label_included(#[trigger] labels[i]) && translit_of(
                labels[i].iso639@,
            ) == k,
    decreases labels.len(),
{
    if labels.len() == 0 {
        assert(title_of(name, labels)[0] == (en_key(), translit_of(name)));
        assert(title_of(name, labels).drop_first() =~= Seq::<(Seq<char>, Seq<char>)>::empty());
        assert(lookup(Seq::<(Seq<char>, Seq<char>)>::empty(), k) is None);
    } else {
        let sub = labels.drop_last();
        assert(forall|i: int| 0 <= i < sub.len() ==> sub[i] == labels[i]);
        lemma_title_keys(name, sub, k);
        let l = labels.last();
        let prev = title_of(name, sub);
        if label_included(l) && translit_of(l.iso639@) == k {
            lemma_lookup_upsert_same(prev, k, translit_of(l.label@));
            assert(label_included(labels[labels.len() - 1]) && translit_of(
                labels[labels.len() - 1].iso639@,
            ) == k);
        } else {
            if label_included(l) {
                lemma_lookup_upsert_other(prev, translit_of(l.iso639@), translit_of(l.label@), k);
            }
            if exists|i: int|
                0 <= i < labels.len() && label_included(#[trigger] labels[i]) && translit_of(
                    labels[i].iso639@,
                ) == k {
                let i = choose|i: int|
                    0 <= i < labels.len() && label_included(#[trigger] labels[i]) && translit_of(
                        labels[i].iso639@,
                    ) == k;
                assert(i < sub.len());
                assert(label_included(sub[i]) && translit_of(sub[i].iso639@) == k);
            }
            if exists|i: int|
                0 <= i < sub.len() && label_included(#[trigger] sub[i]) && translit_of(
                    sub[i].iso639@,
                ) == k {
                let i = choose|i: int|
                    0 <= i < sub.len() && label_included(#[trigger] sub[i]) && translit_of(
                        sub[i].iso639@,
                    ) == k;
                assert(label_included(labels[i]) && translit_of(labels[i].iso639@) == k);
            }
        }
    }
}

/// When two included labels share a sanitized language code, the later one
/// in source order decides the title entry.
pub proof fn lemma_title_last_wins(name: Seq<char>, labels: Seq<Label>, k: Seq<char>, i: int)
    requires
        k != en_key(),
        0 <= i < labels.len(),
        label_included(labels[i]),
        translit_of(labels[i].iso639@) == k,
        forall|m: int|
            i < m < labels.len() ==> !(label_included(#[trigger] labels[m]) && translit_of(
                labels[m].iso639@,
            ) == k),
    ensures
        lookup(title_of(name, labels), k) == Some(translit_of(labels[i].label@)),
    decreases labels.len(),
{
    let l = labels.last();
    let sub = labels.drop_last();
    let prev = title_of(name, sub);
    if i == labels.len() - 1 {
        lemma_lookup_upsert_same(prev, k, translit_of(l.label@));
    } else {
        assert(forall|m: int| 0 <= m < sub.len() ==> sub[m] == labels[m]);
        lemma_title_last_wins(name, sub, k, i);
        if label_included(l) {
            assert(translit_of(l.iso639@) != k);
            lemma_lookup_upsert_other(prev, translit_of(l.iso639@), translit_of(l.label@), k);
        }
    }
}

/// Convert one raw record into the output shape: derive the identifier
/// from the last path segment of the sanitized source identifier, aggregate
/// the labels into the title, and select the first non-empty acronym.
pub fn map_item(item: &AffiliationItem) -> (r: YamlEntry)
    ensures
        entry_matches(r, *item),
        r.title.wf(),
{
    let id_sanitized = sanitize(item.id.as_str());
    let id_part = last_segment(id_sanitized.as_str());

    let name_s = sanitize(item.name.as_str());
    let en = String::from_str("en");
    proof {
        reveal_strlit("en");
        assert(en@ =~= en_key());
    }
    let mut title = TitleMap::new();
    title.insert(en, name_s.clone());
    proof {
        assert(title@ =~= seq![(en_key(), translit_of(item.name@))]);
        assert(item.labels@.take(0) =~= Seq::<Label>::empty());
    }

    let nlabels = item.labels.len();
    let mut i: usize = 0;
    while i < nlabels
        invariant
            i <= nlabels,
            nlabels == item.labels@.len(),
            title.wf(),
            title@ =~= title_of(item.name@, item.labels@.take(i as int)),
        decreases nlabels - i,
    {
        let l = &item.labels[i];
        let lk = sanitize(l.iso639.as_str());
        let lv = sanitize(l.label.as_str());
        if !lk.as_str().is_empty() && !lv.as_str().is_empty() {
            title.insert(lk, lv);
        }
        proof {
            assert(item.labels@.take(i as int + 1).drop_last() =~= item.labels@.take(i as int));
            assert(item.labels@.take(i as int + 1).last() == item.labels@[i as int]);
        }
        i += 1;
    }
    proof {
        assert(item.labels@.take(nlabels as int) =~= item.labels@);
    }

    let acronym: Option<String> = match first_nonempty_index(&item.acronyms) {
        Some(j) => {
            proof {
                lemma_acronym_of_first(item.acronyms@, j as int);
            }
            Some(sanitize(item.acronyms[j].as_str()))
        },
        None => {
            proof {
                lemma_acronym_of_none(item.acronyms@);
            }
            None
        },
    };

    let scheme = String::from_str("affiliation");
    proof {
        reveal_strlit("affiliation");
        assert(scheme@ =~= scheme_key());
    }
    let identifier = Identifier { identifier: id_part.clone(), scheme };
    let mut identifiers: Vec<Identifier> = Vec::new();
    identifiers.push(identifier);

    YamlEntry { id: id_part, name: name_s, title, identifiers, acronym }
}

/// Convert every raw record, in order: the output holds exactly one
/// converted record for each input record.
pub fn convert_records(items: &Vec<AffiliationItem>) -> (r: Vec<YamlEntry>)
    ensures
        r@.len() == items@.len(),
        forall|i: int| 0 <= i < items@.len() ==> entry_matches(#[trigger] r@[i], items@[i]),
        forall|i: int| 0 <= i < items@.len() ==> (#[trigger] r@[i]).title.wf(),
{
    let n = items.len();
    let mut out: Vec<YamlEntry> = Vec::new();
    let mut i: usize = 0;
    while i < n
        invariant
            i <= n,
            n == items@.len(),
            out@.len() == i,
            forall|m: int| 0 <= m < i ==> entry_matches(#[trigger] out@[m], items@[m]),
            forall|m: int| 0 <= m < i ==> (#[trigger] out@[m]).title.wf(),
        decreases n - i,
    {
        out.push(map_item(&items[i]));
        i += 1;
    }
    out
}

/// The three-byte UTF-8 byte-order marker that precedes the emitted
/// document.
pub fn bom_bytes() -> (r: Vec<u8>)
    ensures
        r@ =~= seq![0xEFu8, 0xBBu8, 0xBFu8],
{
    let mut v: Vec<u8> = Vec::new();
    v.push(0xEF);
    v.push(0xBB);
    v.push(0xBF);
    v
}

} // verus!

