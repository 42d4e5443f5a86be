//! The smart tag cache: the per-tag view over the latest frames.
//!
//! A single updater task owns the cache and folds every parsed frame
//! into it: each tag definition names a source variable (possibly one
//! bit of it), and the cache keeps the latest stringified value, its
//! change flag, and the delivery bookkeeping. Harvesters read entries
//! due under their policy — fixed interval or on-change — and the
//! cache marks what they took. Every step is a pure function of the
//! state, the frame and the clock.

use crate::numfmt::parse_u64_spec;
use crate::parser::{vars_view, PlcVariable, PlcVariableView};
use vstd::prelude::*;

verus! {

/// A logical tag definition: where the value comes from
/// (`variable_path`, e.g. `Word[5]` or `Word[5].3` for one bit) and
/// how it is delivered.
#[derive(Debug, Clone)]
pub struct TagMapping {
    pub tag_name: String,
    pub plc_ip: String,
    pub variable_path: String,
    pub description: Option<String>,
    pub unit: Option<String>,
    pub enabled: bool,
    pub created_at: i64,
    pub collect_mode: Option<String>,
    pub collect_interval_s: Option<u32>,
}

/// Ghost image of a `TagMapping`.
pub struct TagView {
    pub tag_name: Seq<char>,
    pub variable_path: Seq<char>,
    pub enabled: bool,
    pub collect_mode: Option<Seq<char>>,
    pub collect_interval_s: Option<u32>,
}

impl View for TagMapping {
    type V = TagView;

    open spec fn view(&self) -> TagView {
        TagView {
            tag_name: self.tag_name@,
            variable_path: self.variable_path@,
            enabled: self.enabled,
            collect_mode: match self.collect_mode {
                Some(ref m) => Some(m@),
                None => None,
            },
            collect_interval_s: self.collect_interval_s,
        }
    }
}

/// The views of a vector of tag definitions.
pub open spec fn tags_view(tags: Seq<TagMapping>) -> Seq<TagView> {
    tags.map(|_i: int, t: TagMapping| t@)
}

/// One cached tag value with its delivery bookkeeping.
#[derive(Debug, Clone)]
pub struct CachedTagValue {
    pub tag_name: String,
    pub plc_ip: String,
    pub value: String,
    pub data_type: String,
    pub timestamp_ns: u128,
    pub collect_mode: String,
    pub interval_s: u64,
    pub last_sent: u128,
    pub changed: bool,
}

/// Ghost image of a `CachedTagValue`.
#[verifier::ext_equal]
pub struct EntryModel {
    pub tag_name: Seq<char>,
    pub plc_ip: Seq<char>,
    pub value: Seq<char>,
    pub data_type: Seq<char>,
    pub timestamp_ns: nat,
    pub collect_mode: Seq<char>,
    pub interval_s: nat,
    pub last_sent: nat,
    pub changed: bool,
}

impl View for CachedTagValue {
    type V = EntryModel;

    open spec fn view(&self) -> EntryModel {
        EntryModel {
            tag_name: self.tag_name@,
            plc_ip: self.plc_ip@,
            value: self.value@,
            data_type: self.data_type@,
            timestamp_ns: self.timestamp_ns as nat,
            collect_mode: self.collect_mode@,
            interval_s: self.interval_s as nat,
            last_sent: self.last_sent as nat,
            changed: self.changed,
        }
    }
}

/// One remembered last value for an on-change tag.
#[derive(Debug, Clone)]
pub struct ChangeEntry {
    pub plc_ip: String,
    pub tag_name: String,
    pub value: String,
}

/// Ghost image of a `ChangeEntry`.
#[verifier::ext_equal]
pub struct TrackModel {
    pub plc_ip: Seq<char>,
    pub tag_name: Seq<char>,
    pub value: Seq<char>,
}

impl View for ChangeEntry {
    type V = TrackModel;

    open spec fn view(&self) -> TrackModel {
        TrackModel { plc_ip: self.plc_ip@, tag_name: self.tag_name@, value: self.value@ }
    }
}

/// Ghost image of the whole cache.
#[verifier::ext_equal]
pub struct CacheModel {
    pub entries: Seq<EntryModel>,
    pub tracking: Seq<TrackModel>,
}

/// Number of occurrences of `c` in `s`.
pub open spec fn count_char(s: Seq<char>, c: char) -> nat
    decreases s.len(),
{
    if s.len() == 0 {
        0
    } else {
        count_char(s.drop_last(), c) + if s.last() == c {
            1nat
        } else {
            0nat
        }
    }
}

/// Index of the first occurrence of `c` in `s`, or the length.
pub open spec fn find_char(s: Seq<char>, c: char) -> int
    decreases s.len(),
{
    if s.len() == 0 {
        0
    } else if s.first() == c {
        0
    } else {
        1 + find_char(s.drop_first(), c)
    }
}

/// `DB`-prefixed paths are opaque names: no bit extraction.
pub open spec fn starts_with_db(s: Seq<char>) -> bool {
    s.len() >= 2 && s[0] == 'D' && s[1] == 'B'
}

/// Splits a variable path into its base name and bit index: a path
/// with exactly one dot, not starting with `DB`, whose suffix parses
/// as a small number, addresses one bit of the base variable.
pub open spec fn bit_split(path: Seq<char>) -> (Seq<char>, Option<nat>) {
    if count_char(path, '.') == 1 && !starts_with_db(path) {
        let i = find_char(path, '.');
        let base = path.take(i);
        let suffix = path.skip(i + 1);
        match parse_u64_spec(suffix) {
            Some(b) => if b <= 255 {
                (base, Some(b as nat))
            } else {
                (path, None)
            },
            None => (path, None),
        }
    } else {
        (path, None)
    }
}

/// Bit `b` of `v`, read arithmetically.
pub open spec fn bit_of(v: nat, b: nat) -> nat {
    (v / vstd::arithmetic::power2::pow2(b)) % 2
}

/// The delivered value of a tag: the variable's text verbatim, or
/// `TRUE`/`FALSE` for a bit of it. Text that does not parse as an
/// unsigned number, or a bit outside a 64-bit word, falls back to the
/// verbatim text.
pub open spec fn resolved_value(var_value: Seq<char>, bit: Option<nat>) -> Seq<char> {
    match bit {
        None => var_value,
        Some(b) => match parse_u64_spec(var_value) {
            Some(v) => if b < 64 {
                if bit_of(v as nat, b) == 1 {
                    "TRUE"@
                } else {
                    "FALSE"@
                }
            } else {
                var_value
            },
            None => var_value,
        },
    }
}

/// The first variable named `name`, if any.
pub open spec fn find_var(vars: Seq<PlcVariableView>, name: Seq<char>) -> Option<PlcVariableView>
    decreases vars.len(),
{
    if vars.len() == 0 {
        None
    } else if vars.first().name == name {
        Some(vars.first())
    } else {
        find_var(vars.drop_first(), name)
    }
}

/// The remembered last value of an on-change tag, if any.
pub open spec fn track_lookup(tracking: Seq<TrackModel>, plc: Seq<char>, tag: Seq<char>) -> Option<
    Seq<char>,
>
    decreases tracking.len(),
{
    if tracking.len() == 0 {
        None
    } else if tracking.first().plc_ip == plc && tracking.first().tag_name == tag {
        Some(tracking.first().value)
    } else {
        track_lookup(tracking.drop_first(), plc, tag)
    }
}

/// Remembers `value` for the tag, replacing an earlier memory.
pub open spec fn track_upsert(
    tracking: Seq<TrackModel>,
    plc: Seq<char>,
    tag: Seq<char>,
    value: Seq<char>,
) -> Seq<TrackModel>
    decreases tracking.len(),
{
    if tracking.len() == 0 {
        seq![TrackModel { plc_ip: plc, tag_name: tag, value }]
    } else if tracking.first().plc_ip == plc && tracking.first().tag_name == tag {
        seq![TrackModel { plc_ip: plc, tag_name: tag, value }] + tracking.drop_first()
    } else {
        seq![tracking.first()] + track_upsert(tracking.drop_first(), plc, tag, value)
    }
}

/// Index of the cache entry for `(plc, tag)`, or the length.
pub open spec fn entry_index(entries: Seq<EntryModel>, plc: Seq<char>, tag: Seq<char>) -> int
    decreases entries.len(),
{
    if entries.len() == 0 {
        0
    } else if entries.first().plc_ip == plc && entries.first().tag_name == tag {
        0
    } else {
        1 + entry_index(entries.drop_first(), plc, tag)
    }
}

/// Upserts one tag into the entry list: an existing entry keeps its
/// `last_sent`; a new one starts with zero.
pub open spec fn cache_upsert(entries: Seq<EntryModel>, fresh: EntryModel) -> Seq<EntryModel> {
    let i = entry_index(entries, fresh.plc_ip, fresh.tag_name);
    if i < entries.len() {
        entries.update(i, EntryModel { last_sent: entries[i].last_sent, ..fresh })
    } else {
        entries.push(fresh)
    }
}

/// Folds one tag definition into the cache: resolve the source
/// variable (a missing one is skipped), compute the delivered value,
/// detect change for on-change tags, and upsert the entry. A bit
/// extraction resolves the data type to `BOOL`.
pub open spec fn apply_tag(
    m: CacheModel,
    plc: Seq<char>,
    vars: Seq<PlcVariableView>,
    tag: TagView,
    now: nat,
) -> CacheModel {
    if !tag.enabled {
        m
    } else {
        let (base, bit) = bit_split(tag.variable_path);
        match find_var(vars, base) {
            None => m,
            Some(v) => {
                let fv = resolved_value(v.value, bit);
                let mode = match tag.collect_mode {
                    Some(md) => md,
                    None => Seq::<char>::empty(),
                };
                let is_change = mode == "change"@;
                let changed = if is_change {
                    match track_lookup(m.tracking, plc, tag.tag_name) {
                        Some(prev) => prev != fv,
                        None => true,
                    }
                } else {
                    true
                };
                let tracking2 = if is_change {
                    track_upsert(m.tracking, plc, tag.tag_name, fv)
                } else {
                    m.tracking
                };
                let fresh = EntryModel {
                    tag_name: tag.tag_name,
                    plc_ip: plc,
                    value: fv,
                    data_type: if bit is Some {
                        "BOOL"@
                    } else {
                        v.data_type
                    },
                    timestamp_ns: now,
                    collect_mode: mode,
                    interval_s: match tag.collect_interval_s {
                        Some(s) => s as nat,
                        None => 1,
                    },
                    last_sent: 0,
                    changed,
                };
                CacheModel { entries: cache_upsert(m.entries, fresh), tracking: tracking2 }
            },
        }
    }
}

/// Folds a whole frame into the cache, tag by tag, in definition
/// order.
pub open spec fn update_spec(
    m: CacheModel,
    plc: Seq<char>,
    vars: Seq<PlcVariableView>,
    tags: Seq<TagView>,
    now: nat,
) -> CacheModel
    decreases tags.len(),
{
    if tags.len() == 0 {
        m
    } else {
        update_spec(apply_tag(m, plc, vars, tags.first(), now), plc, vars, tags.drop_first(), now)
    }
}

/// Bit extraction is exact at both ends of a 64-bit word: bit 0 is
/// the parity, and bit 63 is set exactly for values of the top half
/// of the range.
pub proof fn lemma_bit_extract_bounds(v: u64)
    ensures
        bit_of(v as nat, 0) == (v as nat) % 2,
        bit_of(v as nat, 63) == (if v >= 0x8000000000000000 {
            1nat
        } else {
            0nat
        }),
{
    vstd::arithmetic::power2::lemma2_to64();
    vstd::arithmetic::power2::lemma2_to64_rest();
    assert(vstd::arithmetic::power2::pow2(0) == 1);
    assert((v as nat) / 1 == v as nat);
    let p63 = vstd::arithmetic::power2::pow2(63);
    assert(p63 == 0x8000000000000000);
    if v >= 0x8000000000000000 {
        assert((v as nat) / p63 == 1) by {
            vstd::arithmetic::div_mod::lemma_fundamental_div_mod_converse(
                v as int,
                p63 as int,
                1,
                v - p63,
            );
        }
    } else {
        assert((v as nat) / p63 == 0) by {
            vstd::arithmetic::div_mod::lemma_basic_div(v as int, p63 as int);
        }
    }
}

/// First-match scans agree with the recursive index functions.
proof fn lemma_entry_index_at(entries: Seq<EntryModel>, plc: Seq<char>, tag: Seq<char>, i: int)
    requires
        0 <= i < entries.len(),
        entries[i].plc_ip == plc && entries[i].tag_name == tag,
        forall|j: int|
            0 <= j < i ==> !((#[trigger] entries[j]).plc_ip == plc && entries[j].tag_name == tag),
    ensures
        entry_index(entries, plc, tag) == i,
    decreases i,
{
    if i == 0 {
    } else {
        assert(!(entries.first().plc_ip == plc && entries.first().tag_name == tag)) by {
            assert(entries[0].plc_ip == entries.first().plc_ip);
        }
        let tail = entries.drop_first();
        assert(tail[i - 1] == entries[i]);
        assert forall|j: int|
            0 <= j < i - 1 implies !((#[trigger] tail[j]).plc_ip == plc && tail[j].tag_name
                == tag) by {
            assert(tail[j] == entries[j + 1]);
        }
        lemma_entry_index_at(tail, plc, tag, i - 1);
    }
}

proof fn lemma_entry_index_none(entries: Seq<EntryModel>, plc: Seq<char>, tag: Seq<char>)
    requires
        forall|j: int|
            0 <= j < entries.len() ==> !((#[trigger] entries[j]).plc_ip == plc
                && entries[j].tag_name == tag),
    ensures
        entry_index(entries, plc, tag) == entries.len(),
    decreases entries.len(),
{
    if entries.len() > 0 {
        let tail = entries.drop_first();
        assert forall|j: int|
            0 <= j < tail.len() implies !((#[trigger] tail[j]).plc_ip == plc && tail[j].tag_name
                == tag) by {
            assert(tail[j] == entries[j + 1]);
        }
        lemma_entry_index_none(tail, plc, tag);
        assert(entries[0] == entries.first());
    }
}

/// `track_upsert` is an in-place update at the first match.
proof fn lemma_track_upsert_at(
    tracking: Seq<TrackModel>,
    plc: Seq<char>,
    tag: Seq<char>,
    value: Seq<char>,
    i: int,
)
    requires
        0 <= i < tracking.len(),
        tracking[i].plc_ip == plc && tracking[i].tag_name == tag,
        forall|j: int|
            0 <= j < i ==> !((#[trigger] tracking[j]).plc_ip == plc && tracking[j].tag_name
                == tag),
    ensures
        track_upsert(tracking, plc, tag, value) =~= tracking.update(
            i,
            TrackModel { plc_ip: plc, tag_name: tag, value },
        ),
    decreases i,
{
    if i == 0 {
        assert(tracking[0] == tracking.first());
        assert(seq![TrackModel { plc_ip: plc, tag_name: tag, value }] + tracking.drop_first()
            =~= tracking.update(0, TrackModel { plc_ip: plc, tag_name: tag, value }));
    } else {
        assert(!(tracking.first().plc_ip == plc && tracking.first().tag_name == tag)) by {
            assert(tracking[0] == tracking.first());
        }
        let tail = tracking.drop_first();
        assert(tail[i - 1] == tracking[i]);
        assert forall|j: int|
            0 <= j < i - 1 implies !((#[trigger] tail[j]).plc_ip == plc && tail[j].tag_name
                == tag) by {
            assert(tail[j] == tracking[j + 1]);
        }
        lemma_track_upsert_at(tail, plc, tag, value, i - 1);
        assert(seq![tracking.first()] + tail.update(
            i - 1,
            TrackModel { plc_ip: plc, tag_name: tag, value },
        ) =~= tracking.update(i, TrackModel { plc_ip: plc, tag_name: tag, value }));
    }
}

/// `track_upsert` appends when nothing matches.
proof fn lemma_track_upsert_none(
    tracking: Seq<TrackModel>,
    plc: Seq<char>,
    tag: Seq<char>,
    value: Seq<char>,
)
    requires
        forall|j: int|
            0 <= j < tracking.len() ==> !((#[trigger] tracking[j]).plc_ip == plc
                && tracking[j].tag_name == tag),
    ensures
        track_upsert(tracking, plc, tag, value) =~= tracking.push(
            TrackModel { plc_ip: plc, tag_name: tag, value },
        ),
    decreases tracking.len(),
{
    if tracking.len() == 0 {
    } else {
        assert(!(tracking.first().plc_ip == plc && tracking.first().tag_name == tag)) by {
            assert(tracking[0] == tracking.first());
        }
        let tail = tracking.drop_first();
        assert forall|j: int|
            0 <= j < tail.len() implies !((#[trigger] tail[j]).plc_ip == plc && tail[j].tag_name
                == tag) by {
            assert(tail[j] == tracking[j + 1]);
        }
        lemma_track_upsert_none(tail, plc, tag, value);
        assert(seq![tracking.first()] + tail.push(TrackModel { plc_ip: plc, tag_name: tag, value })
            =~= tracking.push(TrackModel { plc_ip: plc, tag_name: tag, value }));
    }
}

/// Splits a variable path, as `bit_split` says.
fn bit_split_exec(path: &str) -> (r: (String, Option<u8>))
    ensures
        r.0@ == bit_split(path@).0,
        match r.1 {
            Some(b) => bit_split(path@).1 == Some(b as nat),
            None => bit_split(path@).1 is None,
        },
{
    let len = path.unicode_len();
    let mut dots: usize = 0;
    let mut first_dot: usize = len;
    let mut i: usize = 0;
    while i < len
        invariant
            0 <= i <= len,
            len == path@.len(),
            dots == count_char(path@.take(i as int), '.'),
            dots <= i,
            first_dot == len ==> forall|j: int| 0 <= j < i ==> path@[j] != '.',
            first_dot < len ==> first_dot < i && path@[first_dot as int] == '.' && (forall|j: int|
                0 <= j < first_dot ==> path@[j] != '.'),
            first_dot <= len,
            dots > 0 ==> first_dot < len,
        decreases len - i,
    {
        let c = path.get_char(i);
        proof {
            assert(path@.take(i as int + 1).drop_last() =~= path@.take(i as int));
            assert(path@.take(i as int + 1).last() == path@[i as int]);
        }
        if c == '.' {
            dots = dots + 1;
            if first_dot == len {
                first_dot = i;
            }
        }
        i = i + 1;
    }
    proof {
        assert(path@.take(len as int) =~= path@);
    }
    let db = len >= 2 && path.get_char(0) == 'D' && path.get_char(1) == 'B';
    proof {
        assert(db == starts_with_db(path@));
    }
    if dots == 1 && !db {
        proof {
            lemma_find_char_at(path@, '.', first_dot as int);
        }
        let base = path.substring_char(0, first_dot);
        let suffix = path.substring_char(first_dot + 1, len);
        proof {
            assert(base@ =~= path@.take(first_dot as int));
            assert(suffix@ =~= path@.skip(first_dot as int + 1));
        }
        match crate::numfmt::parse_u64_str(suffix) {
            Some(b) => {
                if b <= 255 {
                    (base.to_owned(), Some(b as u8))
                } else {
                    (String::from_str(path), None)
                }
            },
            None => (String::from_str(path), None),
        }
    } else {
        (String::from_str(path), None)
    }
}

/// A first occurrence found by a forward scan is `find_char`.
proof fn lemma_find_char_at(s: Seq<char>, c: char, i: int)
    requires
        0 <= i < s.len(),
        s[i] == c,
        forall|j: int| 0 <= j < i ==> s[j] != c,
    ensures
        find_char(s, c) == i,
    decreases i,
{
    if i == 0 {
        assert(s.first() == s[0]);
    } else {
        assert(s.first() != c) by {
            assert(s[0] == s.first());
        }
        let tail = s.drop_first();
        assert(tail[i - 1] == s[i]);
        assert forall|j: int| 0 <= j < i - 1 implies tail[j] != c by {
            assert(tail[j] == s[j + 1]);
        }
        lemma_find_char_at(tail, c, i - 1);
    }
}

/// 2^b as a 64-bit value.
fn pow2_u64(b: u64) -> (r: u64)
    requires
        b <= 63,
    ensures
        r == vstd::arithmetic::power2::pow2(b as nat),
{
    proof {
        vstd::arithmetic::power2::lemma2_to64();
        vstd::arithmetic::power2::lemma2_to64_rest();
    }
    let mut r: u64 = 1;
    let mut j: u64 = 0;
    while j < b
        invariant
            j <= b <= 63,
            r == vstd::arithmetic::power2::pow2(j as nat),
        decreases b - j,
    {
        proof {
            if (j as nat) + 1 < 63 {
                vstd::arithmetic::power2::lemma_pow2_strictly_increases(j as nat + 1, 63);
            }
            vstd::arithmetic::power2::lemma2_to64();
            vstd::arithmetic::power2::lemma2_to64_rest();
            vstd::arithmetic::power2::lemma_pow2_unfold(j as nat + 1);
        }
        r = r * 2;
        j = j + 1;
    }
    r
}

/// The delivered value of a tag, as `resolved_value` says.
fn resolve_value_exec(value: &str, bit: Option<u8>) -> (s: String)
    ensures
        s@ == resolved_value(
            value@,
            match bit {
                Some(b) => Some(b as nat),
                None => None,
            },
        ),
{
    match bit {
        None => String::from_str(value),
        Some(b) => {
            match crate::numfmt::parse_u64_str(value) {
                Some(v) => {
                    if b < 64 {
                        let p = pow2_u64(b as u64);
                        proof {
                            vstd::arithmetic::power2::lemma_pow2_pos(b as nat);
                        }
                        if (v / p) % 2 == 1 {
                            let s = String::from_str("TRUE");
                            s
                        } else {
                            let s = String::from_str("FALSE");
                            s
                        }
                    } else {
                        String::from_str(value)
                    }
                },
                None => String::from_str(value),
            }
        },
    }
}

/// Finds the first variable with the given name.
fn find_var_exec<'a>(vars: &'a [PlcVariable], name: &str) -> (r: Option<&'a PlcVariable>)
    ensures
        match r {
            Some(v) => find_var(vars_view(vars@), name@) == Some(v@),
            None => find_var(vars_view(vars@), name@) is None,
        },
{
    proof {
        assert(vars_view(vars@).skip(0) =~= vars_view(vars@));
    }
    let mut i: usize = 0;
    while i < vars.len()
        invariant
            0 <= i <= vars@.len(),
            vars_view(vars@).len() == vars@.len(),
            find_var(vars_view(vars@), name@) == find_var(
                vars_view(vars@).skip(i as int),
                name@,
            ),
        decreases vars@.len() - i,
    {
        proof {
            assert(vars_view(vars@).skip(i as int).first() == vars_view(vars@)[i as int]);
            assert(vars_view(vars@).skip(i as int).drop_first() =~= vars_view(vars@).skip(
                i as int + 1,
            ));
        }
        if crate::parser::str_eq(vars[i].name.as_str(), name) {
            return Some(&vars[i]);
        }
        i = i + 1;
    }
    proof {
        assert(vars_view(vars@).skip(vars@.len() as int).len() == 0);
    }
    None
}

/// The smart tag cache with its change memory and the per-PLC copy of
/// the tag definitions, so the hot path never touches the store.
#[derive(Debug)]
pub struct SmartCache {
    pub tag_cache: Vec<CachedTagValue>,
    pub change_tracking: Vec<ChangeEntry>,
    pub tag_mappings_cache: Vec<(String, Vec<TagMapping>)>,
    pub cache_size_limit: usize,
}

impl View for SmartCache {
    type V = CacheModel;

    open spec fn view(&self) -> CacheModel {
        CacheModel {
            entries: self.tag_cache@.map(|_i: int, e: CachedTagValue| e@),
            tracking: self.change_tracking@.map(|_i: int, e: ChangeEntry| e@),
        }
    }
}

/// The cached tag definitions for `plc`, if present.
pub open spec fn defs_lookup(defs: Seq<(String, Vec<TagMapping>)>, plc: Seq<char>) -> Option<
    Seq<TagMapping>,
>
    decreases defs.len(),
{
    if defs.len() == 0 {
        None
    } else if defs.first().0@ == plc {
        Some(defs.first().1@)
    } else {
        defs_lookup(defs.drop_first(), plc)
    }
}

impl SmartCache {
    /// An empty cache with the given size bound.
    pub fn new(cache_size_limit: usize) -> (r: SmartCache)
        ensures
            r@.entries.len() == 0,
            r@.tracking.len() == 0,
            r.tag_mappings_cache@.len() == 0,
            r.cache_size_limit == cache_size_limit,
    {
        let r = SmartCache {
            tag_cache: Vec::new(),
            change_tracking: Vec::new(),
            tag_mappings_cache: Vec::new(),
            cache_size_limit,
        };
        proof {
            assert(r@.entries =~= Seq::<EntryModel>::empty());
            assert(r@.tracking =~= Seq::<TrackModel>::empty());
        }
        r
    }

    /// Discards all cached values, change memory and definitions.
    pub fn clear(&mut self)
        ensures
            final(self)@.entries.len() == 0,
            final(self)@.tracking.len() == 0,
            final(self).tag_mappings_cache@.len() == 0,
            final(self).cache_size_limit == old(self).cache_size_limit,
    {
        self.tag_cache.clear();
        self.change_tracking.clear();
        self.tag_mappings_cache.clear();
        proof {
            assert(self@.entries =~= Seq::<EntryModel>::empty());
            assert(self@.tracking =~= Seq::<TrackModel>::empty());
        }
    }

    /// Folds one parsed frame from `plc_ip` into the cache under the
    /// given tag definitions, exactly as `update_spec` describes:
    /// each enabled definition resolves its variable (with optional
    /// bit extraction), on-change tags compare against the change
    /// memory, and entries keep their `last_sent` across upserts.
    pub fn update_from_tcp(
        &mut self,
        plc_ip: &str,
        variables: &[PlcVariable],
        tags: &[TagMapping],
        now_ns: u128,
    )
        ensures
            final(self)@ == update_spec(
                old(self)@,
                plc_ip@,
                vars_view(variables@),
                tags_view(tags@),
                now_ns as nat,
            ),
            final(self).tag_mappings_cache@ == old(self).tag_mappings_cache@,
            final(self).cache_size_limit == old(self).cache_size_limit,
    {
        let ghost m0 = self@;
        let ghost tvs = tags_view(tags@);
        let ghost vvs = vars_view(variables@);
        let mut ti: usize = 0;
        proof {
            assert(tvs.skip(0) =~= tvs);
        }
        while ti < tags.len()
            invariant
                0 <= ti <= tags@.len(),
                tvs == tags_view(tags@),
                vvs == vars_view(variables@),
                tvs.len() == tags@.len(),
                update_spec(m0, plc_ip@, vvs, tvs, now_ns as nat) == update_spec(
                    self@,
                    plc_ip@,
                    vvs,
                    tvs.skip(ti as int),
                    now_ns as nat,
                ),
                self.tag_mappings_cache@ == old(self).tag_mappings_cache@,
                self.cache_size_limit == old(self).cache_size_limit,
            decreases tags@.len() - ti,
        {
            proof {
                assert(tvs.skip(ti as int).first() == tvs[ti as int]);
                assert(tvs.skip(ti as int).drop_first() =~= tvs.skip(ti as int + 1));
            }
            let ghost mcur = self@;
            let tag = &tags[ti];
            if tag.enabled {
                let (base, bit) = bit_split_exec(tag.variable_path.as_str());
                let found = find_var_exec(variables, base.as_str());
                match found {
                    None => {
                        proof {
                            assert(apply_tag(mcur, plc_ip@, vvs, tvs[ti as int], now_ns as nat)
                                =~~= mcur);
                        }
                    },
                    Some(var) => {
                        let fv = resolve_value_exec(var.value.as_str(), bit);
                        let mode: String = match &tag.collect_mode {
                            Some(m) => m.clone(),
                            None => String::new(),
                        };
                        let is_change = crate::parser::str_eq(mode.as_str(), "change");
                        let mut changed = true;
                        if is_change {
                            let prev = self.track_find(plc_ip, tag.tag_name.as_str());
                            changed = match prev {
                                Some(i) => !crate::parser::str_eq(
                                    self.change_tracking[i].value.as_str(),
                                    fv.as_str(),
                                ),
                                None => true,
                            };
                            self.track_upsert_exec(plc_ip, tag.tag_name.as_str(), fv.clone());
                        }
                        let interval: u64 = match tag.collect_interval_s {
                            Some(s) => s as u64,
                            None => 1,
                        };
                        let fresh = CachedTagValue {
                            tag_name: tag.tag_name.clone(),
                            plc_ip: String::from_str(plc_ip),
                            value: fv,
                            data_type: if bit.is_some() {
                                String::from_str("BOOL")
                            } else {
                                var.data_type.clone()
                            },
                            timestamp_ns: now_ns,
                            collect_mode: mode,
                            interval_s: interval,
                            last_sent: 0,
                            changed,
                        };
                        self.cache_upsert_exec(fresh);
                        proof {
                            assert(self@ =~~= apply_tag(
                                mcur,
                                plc_ip@,
                                vvs,
                                tvs[ti as int],
                                now_ns as nat,
                            ));
                        }
                    },
                }
            } else {
                proof {
                    assert(apply_tag(mcur, plc_ip@, vvs, tvs[ti as int], now_ns as nat)
                        =~~= mcur);
                }
            }
            ti = ti + 1;
        }
        proof {
            assert(tvs.skip(tvs.len() as int).len() == 0);
        }
    }

    /// The index of the change memory for `(plc, tag)`, scanning
    /// first match.
    fn track_find(&self, plc: &str, tag: &str) -> (r: Option<usize>)
        ensures
            match r {
                Some(i) => {
                    &&& i < self@.tracking.len()
                    &&& self@.tracking[i as int].plc_ip == plc@
                    &&& self@.tracking[i as int].tag_name == tag@
                    &&& track_lookup(self@.tracking, plc@, tag@) == Some(
                        self@.tracking[i as int].value,
                    )
                    &&& forall|j: int|
                        0 <= j < i ==> !((#[trigger] self@.tracking[j]).plc_ip == plc@
                            && self@.tracking[j].tag_name == tag@)
                },
                None => track_lookup(self@.tracking, plc@, tag@) is None,
            },
    {
        proof {
            assert(self@.tracking.skip(0) =~= self@.tracking);
        }
        let mut i: usize = 0;
        while i < self.change_tracking.len()
            invariant
                0 <= i <= self@.tracking.len(),
                self@.tracking.len() == self.change_tracking@.len(),
                track_lookup(self@.tracking, plc@, tag@) == track_lookup(
                    self@.tracking.skip(i as int),
                    plc@,
                    tag@,
                ),
                forall|j: int|
                    0 <= j < i ==> !((#[trigger] self@.tracking[j]).plc_ip == plc@
                        && self@.tracking[j].tag_name == tag@),
            decreases self.change_tracking@.len() - i,
        {
            proof {
                assert(self@.tracking.skip(i as int).first() == self@.tracking[i as int]);
                assert(self@.tracking.skip(i as int).drop_first() =~= self@.tracking.skip(
                    i as int + 1,
                ));
            }
            let hit = crate::parser::str_eq(self.change_tracking[i].plc_ip.as_str(), plc)
                && crate::parser::str_eq(self.change_tracking[i].tag_name.as_str(), tag);
            if hit {
                return Some(i);
            }
            i = i + 1;
        }
        proof {
            assert(self@.tracking.skip(self@.tracking.len() as int).len() == 0);
        }
        None
    }

    /// Remembers `value` as the last seen value of `(plc, tag)`.
    fn track_upsert_exec(&mut self, plc: &str, tag: &str, value: String)
        ensures
            final(self)@.tracking =~= track_upsert(old(self)@.tracking, plc@, tag@, value@),
            final(self)@.entries == old(self)@.entries,
            final(self).tag_mappings_cache@ == old(self).tag_mappings_cache@,
            final(self).cache_size_limit == old(self).cache_size_limit,
    {
        let found = self.track_find(plc, tag);
        match found {
            Some(i) => {
                let entry = ChangeEntry {
                    plc_ip: String::from_str(plc),
                    tag_name: String::from_str(tag),
                    value,
                };
                self.change_tracking.set(i, entry);
                proof {
                    lemma_track_upsert_at(old(self)@.tracking, plc@, tag@, value@, i as int);
                    assert(self@.tracking =~= old(self)@.tracking.update(
                        i as int,
                        TrackModel { plc_ip: plc@, tag_name: tag@, value: value@ },
                    ));
                }
            },
            None => {
                let entry = ChangeEntry {
                    plc_ip: String::from_str(plc),
                    tag_name: String::from_str(tag),
                    value,
                };
                self.change_tracking.push(entry);
                proof {
                    assert(track_lookup(old(self)@.tracking, plc@, tag@) is None);
                    lemma_track_lookup_none_absent(old(self)@.tracking, plc@, tag@);
                    lemma_track_upsert_none(old(self)@.tracking, plc@, tag@, value@);
                    assert(self@.tracking =~= old(self)@.tracking.push(
                        TrackModel { plc_ip: plc@, tag_name: tag@, value: value@ },
                    ));
                }
            },
        }
    }

    /// Upserts a cache entry, keeping `last_sent` of an existing one.
    fn cache_upsert_exec(&mut self, fresh: CachedTagValue)
        ensures
            final(self)@.entries =~= cache_upsert(old(self)@.entries, fresh@),
            final(self)@.tracking == old(self)@.tracking,
            final(self).tag_mappings_cache@ == old(self).tag_mappings_cache@,
            final(self).cache_size_limit == old(self).cache_size_limit,
    {
        proof {
            assert(self@.entries.skip(0) =~= self@.entries);
        }
        let mut i: usize = 0;
        let n = self.tag_cache.len();
        while i < n
            invariant
                0 <= i <= self@.entries.len(),
                n == self@.entries.len(),
                self@.entries.len() == self.tag_cache@.len(),
                self.tag_cache@ == old(self).tag_cache@,
                self.change_tracking@ == old(self).change_tracking@,
                self.tag_mappings_cache@ == old(self).tag_mappings_cache@,
                self.cache_size_limit == old(self).cache_size_limit,
                forall|j: int|
                    0 <= j < i ==> !((#[trigger] self@.entries[j]).plc_ip == fresh@.plc_ip
                        && self@.entries[j].tag_name == fresh@.tag_name),
            decreases n - i,
        {
            let hit = crate::parser::str_eq(
                self.tag_cache[i].plc_ip.as_str(),
                fresh.plc_ip.as_str(),
            ) && crate::parser::str_eq(
                self.tag_cache[i].tag_name.as_str(),
                fresh.tag_name.as_str(),
            );
            if hit {
                let kept_last_sent = self.tag_cache[i].last_sent;
                let updated = CachedTagValue { last_sent: kept_last_sent, ..fresh };
                self.tag_cache.set(i, updated);
                proof {
                    lemma_entry_index_at(
                        old(self)@.entries,
                        fresh@.plc_ip,
                        fresh@.tag_name,
                        i as int,
                    );
                    assert(updated@ =~~= EntryModel {
                        last_sent: old(self)@.entries[i as int].last_sent,
                        ..fresh@
                    });
                    assert(self@.entries =~~= cache_upsert(old(self)@.entries, fresh@));
                }
                return ;
            }
            i = i + 1;
        }
        self.tag_cache.push(fresh);
        proof {
            lemma_entry_index_none(old(self)@.entries, fresh@.plc_ip, fresh@.tag_name);
            assert(self@.entries =~~= old(self)@.entries.push(fresh@));
            assert(self@.entries =~~= cache_upsert(old(self)@.entries, fresh@));
        }
    }
}

/// No first match means no recursive match either.
proof fn lemma_track_lookup_none_absent(tracking: Seq<TrackModel>, plc: Seq<char>, tag: Seq<char>)
    requires
        track_lookup(tracking, plc, tag) is None,
    ensures
        forall|j: int|
            0 <= j < tracking.len() ==> !((#[trigger] tracking[j]).plc_ip == plc
                && tracking[j].tag_name == tag),
    decreases tracking.len(),
{
    if tracking.len() > 0 {
        lemma_track_lookup_none_absent(tracking.drop_first(), plc, tag);
        assert forall|j: int|
            0 <= j < tracking.len() implies !((#[trigger] tracking[j]).plc_ip == plc
                && tracking[j].tag_name == tag) by {
            if j == 0 {
                assert(tracking[0] == tracking.first());
            } else {
                assert(tracking.drop_first()[j - 1] == tracking[j]);
            }
        }
    }
}

/// Whether an entry is due for emission under its policy at `now`:
/// an on-change entry must be flagged changed, an interval entry must
/// match the harvested interval, and in both cases at least the
/// interval must have passed since the last emission.
pub open spec fn due(e: EntryModel, interval_s: nat, now: nat) -> bool {
    let elapsed_s = (if now >= e.last_sent {
        (now - e.last_sent) as nat
    } else {
        0nat
    }) / 1_000_000_000;
    if e.collect_mode == "change"@ {
        e.changed && elapsed_s >= interval_s
    } else if e.collect_mode == "interval"@ {
        e.interval_s == interval_s && elapsed_s >= interval_s
    } else {
        false
    }
}

/// The `(tag, value)` pairs a harvest emits, in cache order.
pub open spec fn harvest_list(entries: Seq<EntryModel>, interval_s: nat, now: nat) -> Seq<
    (Seq<char>, Seq<char>),
>
    decreases entries.len(),
{
    if entries.len() == 0 {
        Seq::<(Seq<char>, Seq<char>)>::empty()
    } else {
        (if due(entries.first(), interval_s, now) {
            seq![(entries.first().tag_name, entries.first().value)]
        } else {
            Seq::<(Seq<char>, Seq<char>)>::empty()
        }) + harvest_list(entries.drop_first(), interval_s, now)
    }
}

/// After a harvest every emitted entry is stamped: `last_sent` is the
/// harvest instant and the change flag is cleared.
pub open spec fn mark_sent(entries: Seq<EntryModel>, interval_s: nat, now: nat) -> Seq<
    EntryModel,
> {
    entries.map(
        |_i: int, e: EntryModel|
            if due(e, interval_s, now) {
                EntryModel { last_sent: now, changed: false, ..e }
            } else {
                e
            },
    )
}

/// The views of a vector of name/value pairs.
pub open spec fn pairs_view(pairs: Seq<(String, String)>) -> Seq<(Seq<char>, Seq<char>)> {
    pairs.map(|_i: int, p: (String, String)| (p.0@, p.1@))
}

impl SmartCache {
    /// Harvests the entries due under `interval_s` at `now_ns`:
    /// returns their `(tag, value)` pairs in cache order and stamps
    /// them sent. Nothing else changes.
    pub fn get_tags_for_broadcast(&mut self, interval_s: u64, now_ns: u128) -> (r: Vec<
        (String, String),
    >)
        ensures
            pairs_view(r@) == harvest_list(old(self)@.entries, interval_s as nat, now_ns as nat),
            final(self)@.entries == mark_sent(old(self)@.entries, interval_s as nat, now_ns as nat),
            final(self)@.tracking == old(self)@.tracking,
            final(self).tag_mappings_cache@ == old(self).tag_mappings_cache@,
            final(self).cache_size_limit == old(self).cache_size_limit,
    {
        let ghost m0 = self@.entries;
        let mut r: Vec<(String, String)> = Vec::new();
        let mut i: usize = 0;
        let n = self.tag_cache.len();
        proof {
            assert(m0.skip(0) =~= m0);
            assert(pairs_view(r@) =~= Seq::<(Seq<char>, Seq<char>)>::empty());
        }
        while i < n
            invariant
                0 <= i <= n,
                n == m0.len(),
                self@.entries.len() == m0.len(),
                self.tag_cache@.len() == m0.len(),
                self@.tracking == old(self)@.tracking,
                self.tag_mappings_cache@ == old(self).tag_mappings_cache@,
                self.cache_size_limit == old(self).cache_size_limit,
                forall|j: int| i <= j < m0.len() ==> #[trigger] self@.entries[j] == m0[j],
                forall|j: int|
                    0 <= j < i ==> #[trigger] self@.entries[j] == (if due(
                        m0[j],
                        interval_s as nat,
                        now_ns as nat,
                    ) {
                        EntryModel { last_sent: now_ns as nat, changed: false, ..m0[j] }
                    } else {
                        m0[j]
                    }),
                harvest_list(m0, interval_s as nat, now_ns as nat) == pairs_view(r@)
                    + harvest_list(m0.skip(i as int), interval_s as nat, now_ns as nat),
            decreases n - i,
        {
            proof {
                assert(m0.skip(i as int).first() == m0[i as int]);
                assert(m0.skip(i as int).drop_first() =~= m0.skip(i as int + 1));
            }
            proof {
                assert(self@.entries[i as int] == m0[i as int]);
                assert(self.tag_cache@[i as int]@ == self@.entries[i as int]);
            }
            let e = &self.tag_cache[i];
            let elapsed_ns: u128 = if now_ns >= e.last_sent {
                now_ns - e.last_sent
            } else {
                0
            };
            let elapsed_s: u128 = elapsed_ns / 1_000_000_000;
            let is_change = crate::parser::str_eq(e.collect_mode.as_str(), "change");
            let is_interval = crate::parser::str_eq(e.collect_mode.as_str(), "interval");
            let should_send: bool = if is_change {
                e.changed && elapsed_s >= interval_s as u128
            } else if is_interval {
                e.interval_s == interval_s && elapsed_s >= interval_s as u128
            } else {
                false
            };
            proof {
                assert(should_send == due(m0[i as int], interval_s as nat, now_ns as nat));
            }
            if should_send {
                let ghost old_pairs = pairs_view(r@);
                r.push((self.tag_cache[i].tag_name.clone(), self.tag_cache[i].value.clone()));
                let stamped = CachedTagValue {
                    tag_name: self.tag_cache[i].tag_name.clone(),
                    plc_ip: self.tag_cache[i].plc_ip.clone(),
                    value: self.tag_cache[i].value.clone(),
                    data_type: self.tag_cache[i].data_type.clone(),
                    timestamp_ns: self.tag_cache[i].timestamp_ns,
                    collect_mode: self.tag_cache[i].collect_mode.clone(),
                    interval_s: self.tag_cache[i].interval_s,
                    last_sent: now_ns,
                    changed: false,
                };
                let ghost prev_entries = self@.entries;
                let ghost prev_vec = self.tag_cache@;
                self.tag_cache.set(i, stamped);
                proof {
                    assert forall|j: int|
                        0 <= j < m0.len() && j != i implies #[trigger] self@.entries[j]
                            == prev_entries[j] by {
                        assert(self.tag_cache@[j] == prev_vec[j]);
                    }
                    assert(pairs_view(r@) =~= old_pairs.push(
                        (m0[i as int].tag_name, m0[i as int].value),
                    ));
                    assert(self@.entries[i as int] =~~= EntryModel {
                        last_sent: now_ns as nat,
                        changed: false,
                        ..m0[i as int]
                    });
                    assert(pairs_view(r@) + harvest_list(
                        m0.skip(i as int + 1),
                        interval_s as nat,
                        now_ns as nat,
                    ) =~= (old_pairs + (seq![(m0[i as int].tag_name, m0[i as int].value)]
                        + harvest_list(m0.skip(i as int + 1), interval_s as nat, now_ns as nat))));
                }
            } else {
                proof {
                    assert(pairs_view(r@) + harvest_list(
                        m0.skip(i as int + 1),
                        interval_s as nat,
                        now_ns as nat,
                    ) =~= (pairs_view(r@) + (Seq::<(Seq<char>, Seq<char>)>::empty()
                        + harvest_list(m0.skip(i as int + 1), interval_s as nat, now_ns as nat))));
                }
            }
            i = i + 1;
        }
        proof {
            assert(harvest_list(m0.skip(n as int), interval_s as nat, now_ns as nat).len() == 0);
            assert(harvest_list(m0, interval_s as nat, now_ns as nat) =~= pairs_view(r@));
            assert(self@.entries =~~= mark_sent(m0, interval_s as nat, now_ns as nat));
        }
        r
    }
}

/// Whether an entry belongs to `plc` and is due under its policy.
pub open spec fn due_for_plc(e: EntryModel, plc: Seq<char>, interval_s: nat, now: nat) -> bool {
    e.plc_ip == plc && due(e, interval_s, now)
}

/// The `(tag, value)` pairs a per-PLC harvest emits, in cache order.
pub open spec fn harvest_list_plc(
    entries: Seq<EntryModel>,
    plc: Seq<char>,
    interval_s: nat,
    now: nat,
) -> Seq<(Seq<char>, Seq<char>)>
    decreases entries.len(),
{
    if entries.len() == 0 {
        Seq::<(Seq<char>, Seq<char>)>::empty()
    } else {
        (if due_for_plc(entries.first(), plc, interval_s, now) {
            seq![(entries.first().tag_name, entries.first().value)]
        } else {
            Seq::<(Seq<char>, Seq<char>)>::empty()
        }) + harvest_list_plc(entries.drop_first(), plc, interval_s, now)
    }
}

/// After a per-PLC harvest exactly that PLC's due entries are
/// stamped.
pub open spec fn mark_sent_plc(
    entries: Seq<EntryModel>,
    plc: Seq<char>,
    interval_s: nat,
    now: nat,
) -> Seq<EntryModel> {
    entries.map(
        |_i: int, e: EntryModel|
            if due_for_plc(e, plc, interval_s, now) {
                EntryModel { last_sent: now, changed: false, ..e }
            } else {
                e
            },
    )
}

impl SmartCache {
    /// Harvests the entries of one PLC due under `interval_s` at
    /// `now_ns`: their `(tag, value)` pairs in cache order, stamped
    /// sent. Entries of other PLCs are untouched, so a broadcaster
    /// can build single-origin batches for subscription filtering.
    pub fn get_tags_for_plc_broadcast(&mut self, plc: &str, interval_s: u64, now_ns: u128) -> (r:
        Vec<(String, String)>)
        ensures
            pairs_view(r@) == harvest_list_plc(
                old(self)@.entries,
                plc@,
                interval_s as nat,
                now_ns as nat,
            ),
            final(self)@.entries == mark_sent_plc(
                old(self)@.entries,
                plc@,
                interval_s as nat,
                now_ns as nat,
            ),
            final(self)@.tracking == old(self)@.tracking,
            final(self).tag_mappings_cache@ == old(self).tag_mappings_cache@,
            final(self).cache_size_limit == old(self).cache_size_limit,
    {
        let ghost m0 = self@.entries;
        let mut r: Vec<(String, String)> = Vec::new();
        let mut i: usize = 0;
        let n = self.tag_cache.len();
        proof {
            assert(m0.skip(0) =~= m0);
            assert(pairs_view(r@) =~= Seq::<(Seq<char>, Seq<char>)>::empty());
        }
        while i < n
            invariant
                0 <= i <= n,
                n == m0.len(),
                self@.entries.len() == m0.len(),
                self.tag_cache@.len() == m0.len(),
                self@.tracking == old(self)@.tracking,
                self.tag_mappings_cache@ == old(self).tag_mappings_cache@,
                self.cache_size_limit == old(self).cache_size_limit,
                forall|j: int| i <= j < m0.len() ==> #[trigger] self@.entries[j] == m0[j],
                forall|j: int|
                    0 <= j < i ==> #[trigger] self@.entries[j] == (if due_for_plc(
                        m0[j],
                        plc@,
                        interval_s as nat,
                        now_ns as nat,
                    ) {
                        EntryModel { last_sent: now_ns as nat, changed: false, ..m0[j] }
                    } else {
                        m0[j]
                    }),
                harvest_list_plc(m0, plc@, interval_s as nat, now_ns as nat) == pairs_view(r@)
                    + harvest_list_plc(
                    m0.skip(i as int),
                    plc@,
                    interval_s as nat,
                    now_ns as nat,
                ),
            decreases n - i,
        {
            proof {
                assert(m0.skip(i as int).first() == m0[i as int]);
                assert(m0.skip(i as int).drop_first() =~= m0.skip(i as int + 1));
                assert(self@.entries[i as int] == m0[i as int]);
                assert(self.tag_cache@[i as int]@ == self@.entries[i as int]);
            }
            let e = &self.tag_cache[i];
            let elapsed_ns: u128 = if now_ns >= e.last_sent {
                now_ns - e.last_sent
            } else {
                0
            };
            let elapsed_s: u128 = elapsed_ns / 1_000_000_000;
            let is_mine = crate::parser::str_eq(e.plc_ip.as_str(), plc);
            let is_change = crate::parser::str_eq(e.collect_mode.as_str(), "change");
            let is_interval = crate::parser::str_eq(e.collect_mode.as_str(), "interval");
            let should_send: bool = is_mine && (if is_change {
                e.changed && elapsed_s >= interval_s as u128
            } else if is_interval {
                e.interval_s == interval_s && elapsed_s >= interval_s as u128
            } else {
                false
            });
            proof {
                assert(should_send == due_for_plc(
                    m0[i as int],
                    plc@,
                    interval_s as nat,
                    now_ns as nat,
                ));
            }
            if should_send {
                let ghost old_pairs = pairs_view(r@);
                r.push((self.tag_cache[i].tag_name.clone(), self.tag_cache[i].value.clone()));
                let stamped = CachedTagValue {
                    tag_name: self.tag_cache[i].tag_name.clone(),
                    plc_ip: self.tag_cache[i].plc_ip.clone(),
                    value: self.tag_cache[i].value.clone(),
                    data_type: self.tag_cache[i].data_type.clone(),
                    timestamp_ns: self.tag_cache[i].timestamp_ns,
                    collect_mode: self.tag_cache[i].collect_mode.clone(),
                    interval_s: self.tag_cache[i].interval_s,
                    last_sent: now_ns,
                    changed: false,
                };
                let ghost prev_entries = self@.entries;
                let ghost prev_vec = self.tag_cache@;
                self.tag_cache.set(i, stamped);
                proof {
                    assert forall|j: int|
                        0 <= j < m0.len() && j != i implies #[trigger] self@.entries[j]
                            == prev_entries[j] by {
                        assert(self.tag_cache@[j] == prev_vec[j]);
                    }
                    assert(pairs_view(r@) =~= old_pairs.push(
                        (m0[i as int].tag_name, m0[i as int].value),
                    ));
                    assert(self@.entries[i as int] =~~= EntryModel {
                        last_sent: now_ns as nat,
                        changed: false,
                        ..m0[i as int]
                    });
                    assert(pairs_view(r@) + harvest_list_plc(
                        m0.skip(i as int + 1),
                        plc@,
                        interval_s as nat,
                        now_ns as nat,
                    ) =~= (old_pairs + (seq![(m0[i as int].tag_name, m0[i as int].value)]
                        + harvest_list_plc(
                        m0.skip(i as int + 1),
                        plc@,
                        interval_s as nat,
                        now_ns as nat,
                    ))));
                }
            } else {
                proof {
                    assert(pairs_view(r@) + harvest_list_plc(
                        m0.skip(i as int + 1),
                        plc@,
                        interval_s as nat,
                        now_ns as nat,
                    ) =~= (pairs_view(r@) + (Seq::<(Seq<char>, Seq<char>)>::empty()
                        + harvest_list_plc(
                        m0.skip(i as int + 1),
                        plc@,
                        interval_s as nat,
                        now_ns as nat,
                    ))));
                }
            }
            i = i + 1;
        }
        proof {
            assert(harvest_list_plc(
                m0.skip(n as int),
                plc@,
                interval_s as nat,
                now_ns as nat,
            ).len() == 0);
            assert(harvest_list_plc(m0, plc@, interval_s as nat, now_ns as nat) =~= pairs_view(
                r@,
            ));
            assert(self@.entries =~~= mark_sent_plc(m0, plc@, interval_s as nat, now_ns as nat));
        }
        r
    }

    /// The distinct PLC identities with cached entries, in cache
    /// order: what a broadcaster iterates to build per-PLC batches.
    pub fn cached_plcs(&self) -> (r: Vec<String>)
        ensures
            forall|p: int|
                0 <= p < r@.len() ==> #[trigger] plc_among_entries(r@[p]@, self@.entries),
            forall|q: int|
                0 <= q < self@.entries.len() ==> #[trigger] ip_in_list(
                    self@.entries[q].plc_ip,
                    r@,
                ),
            forall|p: int, p2: int| 0 <= p < p2 < r@.len() ==> (#[trigger] r@[p])@ != (
            #[trigger] r@[p2])@,
    {
        let mut r: Vec<String> = Vec::new();
        let mut i: usize = 0;
        while i < self.tag_cache.len()
            invariant
                0 <= i <= self.tag_cache@.len(),
                self@.entries.len() == self.tag_cache@.len(),
                forall|p: int|
                    0 <= p < r@.len() ==> #[trigger] plc_among_entries(r@[p]@, self@.entries),
                forall|q: int|
                    0 <= q < i ==> #[trigger] ip_in_list(self@.entries[q].plc_ip, r@),
                forall|p: int, p2: int| 0 <= p < p2 < r@.len() ==> (#[trigger] r@[p])@ != (
                #[trigger] r@[p2])@,
            decreases self.tag_cache@.len() - i,
        {
            let mut seen = false;
            let mut p: usize = 0;
            while p < r.len()
                invariant
                    0 <= p <= r@.len(),
                    self@.entries.len() == self.tag_cache@.len(),
                    i < self.tag_cache@.len(),
                    seen ==> ip_in_list(self@.entries[i as int].plc_ip, r@),
                    !seen ==> forall|k: int|
                        0 <= k < p ==> (#[trigger] r@[k])@ != self@.entries[i as int].plc_ip,
                decreases r@.len() - p,
            {
                if crate::parser::str_eq(r[p].as_str(), self.tag_cache[i].plc_ip.as_str()) {
                    seen = true;
                    proof {
                        assert(self@.entries[i as int].plc_ip == r@[p as int]@);
                        assert(ip_in_list(self@.entries[i as int].plc_ip, r@));
                    }
                }
                p = p + 1;
            }
            let ghost before = r@;
            if !seen {
                r.push(self.tag_cache[i].plc_ip.clone());
                proof {
                    assert(r@.last()@ == self@.entries[i as int].plc_ip);
                    assert forall|p2: int|
                        0 <= p2 < r@.len() implies #[trigger] plc_among_entries(
                        r@[p2]@,
                        self@.entries,
                    ) by {
                        if p2 < before.len() {
                            assert(r@[p2] == before[p2]);
                            assert(plc_among_entries(before[p2]@, self@.entries));
                        } else {
                            assert(r@[p2]@ == self@.entries[i as int].plc_ip);
                            assert(plc_among_entries(r@[p2]@, self@.entries));
                        }
                    }
                    assert forall|q: int| 0 <= q < i + 1 implies #[trigger] ip_in_list(
                        self@.entries[q].plc_ip,
                        r@,
                    ) by {
                        if q < i {
                            assert(ip_in_list(self@.entries[q].plc_ip, before));
                            let k = choose|k: int|
                                0 <= k < before.len() && self@.entries[q].plc_ip == (
                                #[trigger] before[k])@;
                            assert(self@.entries[q].plc_ip == r@[k]@);
                        } else {
                            assert(self@.entries[q].plc_ip == r@[r@.len() - 1]@);
                        }
                    }
                    assert forall|k: int, k2: int|
                        0 <= k < k2 < r@.len() implies (#[trigger] r@[k])@ != (
                    #[trigger] r@[k2])@ by {
                        if k2 == r@.len() - 1 {
                            assert(r@[k]@ == before[k]@);
                        }
                    }
                }
            } else {
                proof {
                    assert forall|q: int| 0 <= q < i + 1 implies #[trigger] ip_in_list(
                        self@.entries[q].plc_ip,
                        r@,
                    ) by {
                    }
                }
            }
            i = i + 1;
        }
        r
    }
}

/// `ip` is the identity of some cached entry.
pub open spec fn plc_among_entries(ip: Seq<char>, entries: Seq<EntryModel>) -> bool {
    exists|q: int| 0 <= q < entries.len() && ip == (#[trigger] entries[q]).plc_ip
}

/// `ip` appears in the identity list.
pub open spec fn ip_in_list(ip: Seq<char>, list: Seq<String>) -> bool {
    exists|p: int| 0 <= p < list.len() && ip == (#[trigger] list[p])@
}

/// No early fire: an entry last emitted at `t_sent` is due again at
/// `t2` only after at least `interval_s` whole seconds. Because a
/// harvest stamps `last_sent` with its own instant and upserts keep
/// `last_sent`, successive emissions of one tag under `interval=K`
/// are at least `K` seconds apart.
pub proof fn lemma_no_early_fire(e: EntryModel, interval_s: nat, t2: nat)
    requires
        interval_s >= 1,
        due(e, interval_s, t2),
    ensures
        t2 >= e.last_sent + interval_s * 1_000_000_000,
{
    let d = (if t2 >= e.last_sent {
        (t2 - e.last_sent) as nat
    } else {
        0nat
    });
    assert(d / 1_000_000_000 >= interval_s);
    assert(d >= interval_s * 1_000_000_000) by {
        vstd::arithmetic::div_mod::lemma_fundamental_div_mod(d as int, 1_000_000_000);
        vstd::arithmetic::mul::lemma_mul_inequality(
            interval_s as int,
            (d / 1_000_000_000) as int,
            1_000_000_000,
        );
    }
    assert(interval_s * 1_000_000_000 >= 1_000_000_000) by (nonlinear_arith)
        requires
            interval_s >= 1,
    ;
    assert(t2 >= e.last_sent);
}

/// An upsert never touches the delivery clock: the matched entry
/// keeps its `last_sent`.
pub proof fn lemma_upsert_preserves_last_sent(entries: Seq<EntryModel>, fresh: EntryModel, j: int)
    requires
        0 <= j < entries.len(),
    ensures
        cache_upsert(entries, fresh)[j].last_sent == entries[j].last_sent,
{
    let i = entry_index(entries, fresh.plc_ip, fresh.tag_name);
    lemma_entry_index_bound(entries, fresh.plc_ip, fresh.tag_name);
}

/// `entry_index` stays within one past the end.
proof fn lemma_entry_index_bound(entries: Seq<EntryModel>, plc: Seq<char>, tag: Seq<char>)
    ensures
        0 <= entry_index(entries, plc, tag) <= entries.len(),
    decreases entries.len(),
{
    if entries.len() > 0 {
        lemma_entry_index_bound(entries.drop_first(), plc, tag);
    }
}

/// An on-change entry is emitted only while its change flag stands:
/// it was set by the one update that stored a value different from
/// the remembered one, and harvesting clears it.
pub proof fn lemma_change_emission_needs_change(e: EntryModel, now: nat)
    requires
        e.collect_mode == "change"@,
        due(e, 0, now),
    ensures
        e.changed,
{
}

impl SmartCache {
    /// Removes one entry with the smallest `last_sent`: the oldest by
    /// delivery clock.
    fn remove_oldest(&mut self)
        requires
            old(self)@.entries.len() > 0,
        ensures
            final(self)@.tracking == old(self)@.tracking,
            final(self).tag_mappings_cache@ == old(self).tag_mappings_cache@,
            final(self).cache_size_limit == old(self).cache_size_limit,
            exists|i: int|
                {
                    &&& 0 <= i < old(self)@.entries.len()
                    &&& final(self)@.entries =~= old(self)@.entries.remove(i)
                    &&& forall|j: int|
                        0 <= j < old(self)@.entries.len() ==> (#[trigger] old(
                            self,
                        )@.entries[j]).last_sent >= old(self)@.entries[i].last_sent
                },
    {
        let mut min_i: usize = 0;
        let mut i: usize = 1;
        let n = self.tag_cache.len();
        while i < n
            invariant
                0 <= min_i < i <= n,
                n == self@.entries.len(),
                self.tag_cache@.len() == n,
                forall|j: int|
                    0 <= j < i ==> (#[trigger] self@.entries[j]).last_sent
                        >= self@.entries[min_i as int].last_sent,
            decreases n - i,
        {
            if self.tag_cache[i].last_sent < self.tag_cache[min_i].last_sent {
                min_i = i;
            }
            i = i + 1;
        }
        let ghost before = self@.entries;
        let ghost chosen = min_i as int;
        self.tag_cache.remove(min_i);
        proof {
            assert(self@.entries =~~= before.remove(chosen));
            assert(0 <= chosen < before.len());
            assert(forall|j: int|
                0 <= j < before.len() ==> (#[trigger] before[j]).last_sent
                    >= before[chosen].last_sent);
        }
    }

    /// Sheds memory when the cache has grown past its limit: one
    /// fifth of the entries — always the oldest by `last_sent` — are
    /// dropped, and every surviving entry was there before. Under the
    /// limit nothing changes.
    pub fn enforce_memory_bounds(&mut self)
        ensures
            final(self)@.tracking == old(self)@.tracking,
            final(self).tag_mappings_cache@ == old(self).tag_mappings_cache@,
            final(self).cache_size_limit == old(self).cache_size_limit,
            old(self)@.entries.len() <= old(self).cache_size_limit ==> final(self)@.entries == old(
                self,
            )@.entries,
            old(self)@.entries.len() > old(self).cache_size_limit ==> final(self)@.entries.len()
                == old(self)@.entries.len() - old(self)@.entries.len() / 5,
            entries_among(final(self)@.entries, old(self)@.entries),
            exists|rem: Seq<EntryModel>|
                {
                    &&& old(self)@.entries.to_multiset() == final(self)@.entries.to_multiset().add(
                        #[trigger] rem.to_multiset(),
                    )
                    &&& (forall|p: int, q: int|
                        0 <= p < final(self)@.entries.len() && 0 <= q < rem.len() ==> (
                        #[trigger] final(self)@.entries[p]).last_sent >= (
                        #[trigger] rem[q]).last_sent)
                },
    {
        broadcast use vstd::seq_lib::group_to_multiset_ensures;

        let n = self.tag_cache.len();
        if n <= self.cache_size_limit {
            proof {
                lemma_entries_among_refl(self@.entries);
                let rem = Seq::<EntryModel>::empty();
                assert(rem.to_multiset() =~= vstd::multiset::Multiset::<EntryModel>::empty());
                assert(old(self)@.entries.to_multiset() =~= self@.entries.to_multiset().add(
                    rem.to_multiset(),
                ));
            }
            return ;
        }
        let k = n / 5;
        let mut removed: usize = 0;
        let ghost mut rem: Seq<EntryModel> = Seq::<EntryModel>::empty();
        proof {
            assert(rem.to_multiset() =~= vstd::multiset::Multiset::<EntryModel>::empty());
            assert(old(self)@.entries.to_multiset() =~= self@.entries.to_multiset().add(
                rem.to_multiset(),
            ));
        }
        while removed < k
            invariant
                0 <= removed <= k,
                k == old(self)@.entries.len() / 5,
                k <= old(self)@.entries.len(),
                self@.entries.len() == old(self)@.entries.len() - removed,
                self@.tracking == old(self)@.tracking,
                self.tag_mappings_cache@ == old(self).tag_mappings_cache@,
                self.cache_size_limit == old(self).cache_size_limit,
                entries_among(self@.entries, old(self)@.entries),
                rem.len() == removed,
                old(self)@.entries.to_multiset() == self@.entries.to_multiset().add(
                    rem.to_multiset(),
                ),
                forall|p: int, q: int|
                    0 <= p < self@.entries.len() && 0 <= q < rem.len() ==> (
                    #[trigger] self@.entries[p]).last_sent >= (#[trigger] rem[q]).last_sent,
            decreases k - removed,
        {
            let ghost cur = self@.entries;
            let ghost old_rem = rem;
            self.remove_oldest();
            proof {
                let i = choose|i: int|
                    0 <= i < cur.len() && self@.entries =~= cur.remove(i) && forall|j: int|
                        0 <= j < cur.len() ==> (#[trigger] cur[j]).last_sent >= cur[i].last_sent;
                rem = old_rem.push(cur[i]);
                cur.to_multiset_ensures();
                old_rem.to_multiset_ensures();
                assert(cur.remove(i).to_multiset() =~= cur.to_multiset().remove(cur[i]));
                assert(cur.to_multiset().count(cur[i]) > 0) by {
                    assert(cur.contains(cur[i]));
                }
                assert(cur.to_multiset() =~= self@.entries.to_multiset().insert(cur[i]));
                assert(rem.to_multiset() =~= old_rem.to_multiset().insert(cur[i]));
                assert(self@.entries.to_multiset().add(rem.to_multiset())
                    =~= (self@.entries.to_multiset().insert(cur[i])).add(old_rem.to_multiset()));
                assert forall|p: int, q: int|
                    0 <= p < self@.entries.len() && 0 <= q < rem.len() implies (
                #[trigger] self@.entries[p]).last_sent >= (#[trigger] rem[q]).last_sent by {
                    let e = self@.entries[p];
                    assert(e == (if p < i {
                        cur[p]
                    } else {
                        cur[p + 1]
                    }));
                    if q < old_rem.len() {
                        assert(rem[q] == old_rem[q]);
                    } else {
                        assert(rem[q] == cur[i]);
                    }
                }
                assert forall|p: int|
                    0 <= p < self@.entries.len() implies #[trigger] entry_among(
                    self@.entries[p],
                    cur,
                ) by {
                    if p < i {
                        assert(self@.entries[p] == cur[p]);
                    } else {
                        assert(self@.entries[p] == cur[p + 1]);
                    }
                }
                lemma_entries_among_trans(self@.entries, cur, old(self)@.entries);
            }
            removed = removed + 1;
        }
        proof {
            lemma_entries_among_refl(self@.entries);
        }
    }
}

/// `e` appears somewhere in `older`.
pub open spec fn entry_among(e: EntryModel, older: Seq<EntryModel>) -> bool {
    exists|q: int| 0 <= q < older.len() && e == #[trigger] older[q]
}

/// Every entry of `new` is one of `older`: the sweep only removes.
pub open spec fn entries_among(new: Seq<EntryModel>, older: Seq<EntryModel>) -> bool {
    forall|p: int| 0 <= p < new.len() ==> #[trigger] entry_among(new[p], older)
}

proof fn lemma_entries_among_refl(e: Seq<EntryModel>)
    ensures
        entries_among(e, e),
{
    assert forall|p: int| 0 <= p < e.len() implies #[trigger] entry_among(e[p], e) by {
        assert(e[p] == e[p]);
    }
}

proof fn lemma_entries_among_trans(a: Seq<EntryModel>, b: Seq<EntryModel>, c: Seq<EntryModel>)
    requires
        entries_among(a, b),
        entries_among(b, c),
    ensures
        entries_among(a, c),
{
    assert forall|p: int| 0 <= p < a.len() implies #[trigger] entry_among(a[p], c) by {
        assert(entry_among(a[p], b));
        let q1 = choose|q1: int| 0 <= q1 < b.len() && a[p] == #[trigger] b[q1];
        assert(entry_among(b[q1], c));
        let q2 = choose|q2: int| 0 <= q2 < c.len() && b[q1] == #[trigger] c[q2];
        assert(a[p] == c[q2]);
    }
}

impl SmartCache {
    /// Finds the definitions entry for `plc`, first match.
    fn defs_find(&self, plc: &str) -> (r: Option<usize>)
        ensures
            match r {
                Some(i) => {
                    &&& i < self.tag_mappings_cache@.len()
                    &&& self.tag_mappings_cache@[i as int].0@ == plc@
                    &&& defs_lookup(self.tag_mappings_cache@, plc@) == Some(
                        self.tag_mappings_cache@[i as int].1@,
                    )
                },
                None => defs_lookup(self.tag_mappings_cache@, plc@) is None,
            },
    {
        proof {
            assert(self.tag_mappings_cache@.skip(0) =~= self.tag_mappings_cache@);
        }
        let mut i: usize = 0;
        while i < self.tag_mappings_cache.len()
            invariant
                0 <= i <= self.tag_mappings_cache@.len(),
                defs_lookup(self.tag_mappings_cache@, plc@) == defs_lookup(
                    self.tag_mappings_cache@.skip(i as int),
                    plc@,
                ),
            decreases self.tag_mappings_cache@.len() - i,
        {
            proof {
                assert(self.tag_mappings_cache@.skip(i as int).first()
                    == self.tag_mappings_cache@[i as int]);
                assert(self.tag_mappings_cache@.skip(i as int).drop_first()
                    =~= self.tag_mappings_cache@.skip(i as int + 1));
            }
            if crate::parser::str_eq(self.tag_mappings_cache[i].0.as_str(), plc) {
                return Some(i);
            }
            i = i + 1;
        }
        proof {
            assert(self.tag_mappings_cache@.skip(self.tag_mappings_cache@.len() as int).len()
                == 0);
        }
        None
    }

    /// The cached tag definitions for `plc`, if any.
    pub fn get_cached_tags(&self, plc: &str) -> (r: Option<&Vec<TagMapping>>)
        ensures
            match r {
                Some(tags) => defs_lookup(self.tag_mappings_cache@, plc@) == Some(tags@),
                None => defs_lookup(self.tag_mappings_cache@, plc@) is None,
            },
    {
        match self.defs_find(plc) {
            Some(i) => Some(&self.tag_mappings_cache[i].1),
            None => None,
        }
    }

    /// Installs the tag definitions for `plc`, replacing older ones.
    pub fn load_tag_mappings(&mut self, plc: &str, tags: Vec<TagMapping>)
        ensures
            defs_lookup(final(self).tag_mappings_cache@, plc@) == Some(tags@),
            final(self)@ == old(self)@,
            final(self).cache_size_limit == old(self).cache_size_limit,
    {
        self.invalidate_cache(plc);
        let ghost mid = self.tag_mappings_cache@;
        let key = String::from_str(plc);
        self.tag_mappings_cache.push((key, tags));
        proof {
            let entry = self.tag_mappings_cache@.last();
            assert(self.tag_mappings_cache@ =~= mid.push(entry));
            lemma_defs_lookup_push(mid, entry, plc@);
        }
    }

    /// Drops the cached definitions of `plc`; the next frame must
    /// reload them.
    pub fn invalidate_cache(&mut self, plc: &str)
        ensures
            defs_lookup(final(self).tag_mappings_cache@, plc@) is None,
            final(self)@ == old(self)@,
            final(self).cache_size_limit == old(self).cache_size_limit,
    {
        loop
            invariant
                self@ == old(self)@,
                self.cache_size_limit == old(self).cache_size_limit,
            ensures
                defs_lookup(self.tag_mappings_cache@, plc@) is None,
                self@ == old(self)@,
                self.cache_size_limit == old(self).cache_size_limit,
            decreases self.tag_mappings_cache@.len(),
        {
            let hit = self.defs_find(plc);
            match hit {
                None => {
                    break ;
                },
                Some(i) => {
                    self.tag_mappings_cache.remove(i);
                },
            }
        }
    }

    /// Drops every cached definition list.
    pub fn invalidate_all_cache(&mut self)
        ensures
            final(self).tag_mappings_cache@.len() == 0,
            final(self)@ == old(self)@,
            final(self).cache_size_limit == old(self).cache_size_limit,
    {
        self.tag_mappings_cache.clear();
    }
}

/// Pushing a fresh binding at the end is found when the key was
/// absent before.
proof fn lemma_defs_lookup_push(
    defs: Seq<(String, Vec<TagMapping>)>,
    entry: (String, Vec<TagMapping>),
    plc: Seq<char>,
)
    requires
        defs_lookup(defs, plc) is None,
        entry.0@ == plc,
    ensures
        defs_lookup(defs.push(entry), plc) == Some(entry.1@),
    decreases defs.len(),
{
    if defs.len() == 0 {
        assert(defs.push(entry).first() == entry);
    } else {
        assert(defs.push(entry).first() == defs.first());
        assert(defs.push(entry).drop_first() =~= defs.drop_first().push(entry));
        lemma_defs_lookup_push(defs.drop_first(), entry, plc);
    }
}

/// One tag prepared for logic analysis: its resolved value and the
/// data type that resolution produced.
#[derive(Debug, Clone)]
pub struct SclTagInfo {
    pub tag_name: String,
    pub value: String,
    pub data_type: String,
    pub variable_path: String,
}

/// Ghost image of an `SclTagInfo`.
#[verifier::ext_equal]
pub struct SclView {
    pub tag_name: Seq<char>,
    pub value: Seq<char>,
    pub data_type: Seq<char>,
    pub variable_path: Seq<char>,
}

impl View for SclTagInfo {
    type V = SclView;

    open spec fn view(&self) -> SclView {
        SclView {
            tag_name: self.tag_name@,
            value: self.value@,
            data_type: self.data_type@,
            variable_path: self.variable_path@,
        }
    }
}

/// Value and type after resolution for analysis: a bit extraction
/// that succeeds yields `TRUE`/`FALSE` of type `BOOL`; anything else
/// keeps the variable's text and type.
pub open spec fn scl_value_type(var: PlcVariableView, bit: Option<nat>) -> (Seq<char>, Seq<char>) {
    match bit {
        Some(b) => match parse_u64_spec(var.value) {
            Some(v) => if b < 64 {
                (
                    if bit_of(v as nat, b) == 1 {
                        "TRUE"@
                    } else {
                        "FALSE"@
                    },
                    "BOOL"@,
                )
            } else {
                (var.value, var.data_type)
            },
            None => (var.value, var.data_type),
        },
        None => (var.value, var.data_type),
    }
}

/// The analysis rows for the enabled definitions that resolve against
/// the frame, in definition order.
pub open spec fn scl_rows(vars: Seq<PlcVariableView>, tags: Seq<TagView>) -> Seq<SclView>
    decreases tags.len(),
{
    if tags.len() == 0 {
        Seq::<SclView>::empty()
    } else {
        let head = if tags.first().enabled {
            let (base, bit) = bit_split(tags.first().variable_path);
            match find_var(vars, base) {
                Some(v) => {
                    let (value, data_type) = scl_value_type(v, bit);
                    seq![
                        SclView {
                            tag_name: tags.first().tag_name,
                            value,
                            data_type,
                            variable_path: tags.first().variable_path,
                        },
                    ]
                },
                None => Seq::<SclView>::empty(),
            }
        } else {
            Seq::<SclView>::empty()
        };
        head + scl_rows(vars, tags.drop_first())
    }
}

/// The views of a vector of analysis rows.
pub open spec fn scl_view(rows: Seq<SclTagInfo>) -> Seq<SclView> {
    rows.map(|_i: int, r: SclTagInfo| r@)
}

/// Resolves the enabled tag definitions against a parsed frame for
/// logic analysis: each one that finds its variable becomes a row
/// with the resolved value and type.
pub fn get_scl_tags(variables: &[PlcVariable], mappings: &[TagMapping]) -> (r: Vec<SclTagInfo>)
    ensures
        scl_view(r@) == scl_rows(vars_view(variables@), tags_view(mappings@)),
{
    let ghost vvs = vars_view(variables@);
    let ghost tvs = tags_view(mappings@);
    let mut r: Vec<SclTagInfo> = Vec::new();
    let mut i: usize = 0;
    proof {
        assert(tvs.skip(0) =~= tvs);
        assert(scl_view(r@) =~= Seq::<SclView>::empty());
    }
    while i < mappings.len()
        invariant
            0 <= i <= mappings@.len(),
            vvs == vars_view(variables@),
            tvs == tags_view(mappings@),
            tvs.len() == mappings@.len(),
            scl_rows(vvs, tvs) == scl_view(r@) + scl_rows(vvs, tvs.skip(i as int)),
        decreases mappings@.len() - i,
    {
        proof {
            assert(tvs.skip(i as int).first() == tvs[i as int]);
            assert(tvs.skip(i as int).drop_first() =~= tvs.skip(i as int + 1));
        }
        let tag = &mappings[i];
        if tag.enabled {
            let (base, bit) = bit_split_exec(tag.variable_path.as_str());
            let found = find_var_exec(variables, base.as_str());
            match found {
                Some(var) => {
                    let (value, data_type) = match bit {
                        Some(b) => match crate::numfmt::parse_u64_str(var.value.as_str()) {
                            Some(v) => {
                                if b < 64 {
                                    let p = pow2_u64(b as u64);
                                    proof {
                                        vstd::arithmetic::power2::lemma_pow2_pos(b as nat);
                                    }
                                    let text = if (v / p) % 2 == 1 {
                                        String::from_str("TRUE")
                                    } else {
                                        String::from_str("FALSE")
                                    };
                                    (text, String::from_str("BOOL"))
                                } else {
                                    (var.value.clone(), var.data_type.clone())
                                }
                            },
                            None => (var.value.clone(), var.data_type.clone()),
                        },
                        None => (var.value.clone(), var.data_type.clone()),
                    };
                    let ghost old_rows = scl_view(r@);
                    let row = SclTagInfo {
                        tag_name: tag.tag_name.clone(),
                        value,
                        data_type,
                        variable_path: tag.variable_path.clone(),
                    };
                    r.push(row);
                    proof {
                        assert(scl_view(r@) =~= old_rows.push(r@.last()@));
                        assert(scl_view(r@) + scl_rows(vvs, tvs.skip(i as int + 1)) =~= (old_rows
                            + (seq![r@.last()@] + scl_rows(vvs, tvs.skip(i as int + 1)))));
                    }
                },
                None => {
                    proof {
                        assert(scl_view(r@) + scl_rows(vvs, tvs.skip(i as int + 1)) =~= (scl_view(
                            r@,
                        ) + (Seq::<SclView>::empty() + scl_rows(vvs, tvs.skip(i as int + 1)))));
                    }
                },
            }
        } else {
            proof {
                assert(scl_view(r@) + scl_rows(vvs, tvs.skip(i as int + 1)) =~= (scl_view(r@) + (
                Seq::<SclView>::empty() + scl_rows(vvs, tvs.skip(i as int + 1)))));
            }
        }
        i = i + 1;
    }
    proof {
        assert(scl_rows(vvs, tvs.skip(tvs.len() as int)).len() == 0);
        assert(scl_rows(vvs, tvs) =~= scl_view(r@));
    }
    r
}

/// The `(tag, value)` pairs the enabled definitions resolve to
/// against a parsed frame, in definition order — the cache-free
/// answer a live read gives.
pub open spec fn live_values(vars: Seq<PlcVariableView>, tags: Seq<TagView>) -> Seq<
    (Seq<char>, Seq<char>),
>
    decreases tags.len(),
{
    if tags.len() == 0 {
        Seq::<(Seq<char>, Seq<char>)>::empty()
    } else {
        let head = if tags.first().enabled {
            let (base, bit) = bit_split(tags.first().variable_path);
            match find_var(vars, base) {
                Some(v) => seq![(tags.first().tag_name, resolved_value(v.value, bit))],
                None => Seq::<(Seq<char>, Seq<char>)>::empty(),
            }
        } else {
            Seq::<(Seq<char>, Seq<char>)>::empty()
        };
        head + live_values(vars, tags.drop_first())
    }
}

/// Resolves the enabled tag definitions against a parsed frame
/// without touching the cache: the live tag values, in definition
/// order.
pub fn get_real_time_tag_values(variables: &[PlcVariable], mappings: &[TagMapping]) -> (r: Vec<
    (String, String),
>)
    ensures
        pairs_view(r@) == live_values(vars_view(variables@), tags_view(mappings@)),
{
    let ghost vvs = vars_view(variables@);
    let ghost tvs = tags_view(mappings@);
    let mut r: Vec<(String, String)> = Vec::new();
    let mut i: usize = 0;
    proof {
        assert(tvs.skip(0) =~= tvs);
        assert(pairs_view(r@) =~= Seq::<(Seq<char>, Seq<char>)>::empty());
    }
    while i < mappings.len()
        invariant
            0 <= i <= mappings@.len(),
            vvs == vars_view(variables@),
            tvs == tags_view(mappings@),
            tvs.len() == mappings@.len(),
            live_values(vvs, tvs) == pairs_view(r@) + live_values(vvs, tvs.skip(i as int)),
        decreases mappings@.len() - i,
    {
        proof {
            assert(tvs.skip(i as int).first() == tvs[i as int]);
            assert(tvs.skip(i as int).drop_first() =~= tvs.skip(i as int + 1));
        }
        let tag = &mappings[i];
        if tag.enabled {
            let (base, bit) = bit_split_exec(tag.variable_path.as_str());
            let found = find_var_exec(variables, base.as_str());
            match found {
                Some(var) => {
                    let value = resolve_value_exec(var.value.as_str(), bit);
                    let ghost old_pairs = pairs_view(r@);
                    r.push((tag.tag_name.clone(), value));
                    proof {
                        assert(pairs_view(r@) =~= old_pairs.push(
                            (r@.last().0@, r@.last().1@),
                        ));
                        assert(pairs_view(r@) + live_values(vvs, tvs.skip(i as int + 1))
                            =~= (old_pairs + (seq![(r@.last().0@, r@.last().1@)] + live_values(
                            vvs,
                            tvs.skip(i as int + 1),
                        ))));
                    }
                },
                None => {
                    proof {
                        assert(pairs_view(r@) + live_values(vvs, tvs.skip(i as int + 1))
                            =~= (pairs_view(r@) + (Seq::<(Seq<char>, Seq<char>)>::empty()
                            + live_values(vvs, tvs.skip(i as int + 1)))));
                    }
                },
            }
        } else {
            proof {
                assert(pairs_view(r@) + live_values(vvs, tvs.skip(i as int + 1)) =~= (pairs_view(
                    r@,
                ) + (Seq::<(Seq<char>, Seq<char>)>::empty() + live_values(
                    vvs,
                    tvs.skip(i as int + 1),
                ))));
            }
        }
        i = i + 1;
    }
    proof {
        assert(live_values(vvs, tvs.skip(tvs.len() as int)).len() == 0);
        assert(live_values(vvs, tvs) =~= pairs_view(r@));
    }
    r
}

/// What one update stores: when an enabled definition resolves its
/// variable, the cache entry under `(plc, tag)` afterwards holds
/// exactly the value resolved from that frame, and an on-change tag
/// is flagged changed precisely when that value differs from the
/// remembered one (or none was remembered). An emitted on-change
/// value is therefore always the value of a frame processed since the
/// previous emission.
pub proof fn lemma_update_stores_frame_value(
    m: CacheModel,
    plc: Seq<char>,
    vars: Seq<PlcVariableView>,
    tag: TagView,
    now: nat,
)
    requires
        tag.enabled,
        find_var(vars, bit_split(tag.variable_path).0) is Some,
    ensures
        ({
            let v = find_var(vars, bit_split(tag.variable_path).0).unwrap();
            let fv = resolved_value(v.value, bit_split(tag.variable_path).1);
            let m2 = apply_tag(m, plc, vars, tag, now);
            let i = entry_index(m2.entries, plc, tag.tag_name);
            &&& 0 <= i < m2.entries.len()
            &&& m2.entries[i].value == fv
            &&& m2.entries[i].tag_name == tag.tag_name
            &&& m2.entries[i].plc_ip == plc
            &&& (tag.collect_mode == Some("change"@) ==> m2.entries[i].changed == (
            match track_lookup(m.tracking, plc, tag.tag_name) {
                Some(prev) => prev != fv,
                None => true,
            }))
        }),
{
    let v = find_var(vars, bit_split(tag.variable_path).0).unwrap();
    let fv = resolved_value(v.value, bit_split(tag.variable_path).1);
    let m2 = apply_tag(m, plc, vars, tag, now);
    let j = entry_index(m.entries, plc, tag.tag_name);
    lemma_entry_index_bound(m.entries, plc, tag.tag_name);
    if j < m.entries.len() {
        lemma_entry_index_found(m.entries, plc, tag.tag_name);
        lemma_entry_index_at(m2.entries, plc, tag.tag_name, j);
    } else {
        lemma_entry_index_not_found(m.entries, plc, tag.tag_name);
        lemma_entry_index_at(m2.entries, plc, tag.tag_name, m.entries.len() as int);
    }
}

/// An in-range `entry_index` points at the key, and nothing before it
/// does.
proof fn lemma_entry_index_found(entries: Seq<EntryModel>, plc: Seq<char>, tag: Seq<char>)
    requires
        entry_index(entries, plc, tag) < entries.len(),
    ensures
        entries[entry_index(entries, plc, tag)].plc_ip == plc,
        entries[entry_index(entries, plc, tag)].tag_name == tag,
        forall|j: int|
            0 <= j < entry_index(entries, plc, tag) ==> !((#[trigger] entries[j]).plc_ip == plc
                && entries[j].tag_name == tag),
    decreases entries.len(),
{
    if entries.len() > 0 {
        if entries.first().plc_ip == plc && entries.first().tag_name == tag {
            assert(entries[0] == entries.first());
        } else {
            lemma_entry_index_bound(entries.drop_first(), plc, tag);
            lemma_entry_index_found(entries.drop_first(), plc, tag);
            let i = entry_index(entries, plc, tag);
            assert(entries.drop_first()[i - 1] == entries[i]);
            assert forall|j: int|
                0 <= j < i implies !((#[trigger] entries[j]).plc_ip == plc && entries[j].tag_name
                    == tag) by {
                if j == 0 {
                    assert(entries[0] == entries.first());
                } else {
                    assert(entries.drop_first()[j - 1] == entries[j]);
                }
            }
        }
    }
}

/// A full-length `entry_index` means the key is absent.
proof fn lemma_entry_index_not_found(entries: Seq<EntryModel>, plc: Seq<char>, tag: Seq<char>)
    requires
        entry_index(entries, plc, tag) >= entries.len(),
    ensures
        forall|j: int|
            0 <= j < entries.len() ==> !((#[trigger] entries[j]).plc_ip == plc
                && entries[j].tag_name == tag),
    decreases entries.len(),
{
    if entries.len() > 0 {
        assert(!(entries.first().plc_ip == plc && entries.first().tag_name == tag)) by {
            lemma_entry_index_bound(entries.drop_first(), plc, tag);
        }
        lemma_entry_index_not_found(entries.drop_first(), plc, tag);
        assert forall|j: int|
            0 <= j < entries.len() implies !((#[trigger] entries[j]).plc_ip == plc
                && entries[j].tag_name == tag) by {
            if j == 0 {
                assert(entries[0] == entries.first());
            } else {
                assert(entries.drop_first()[j - 1] == entries[j]);
            }
        }
    }
}

/// One harvester tick over several intervals, in order: each interval
/// takes its due entries from the state the previous one left.
pub open spec fn harvest_run(entries: Seq<EntryModel>, intervals: Seq<u64>, now: nat) -> (
    Seq<EntryModel>,
    Seq<(Seq<char>, Seq<char>)>,
)
    decreases intervals.len(),
{
    if intervals.len() == 0 {
        (entries, Seq::<(Seq<char>, Seq<char>)>::empty())
    } else {
        let pairs = harvest_list(entries, intervals.first() as nat, now);
        let marked = mark_sent(entries, intervals.first() as nat, now);
        let rest = harvest_run(marked, intervals.drop_first(), now);
        (rest.0, pairs + rest.1)
    }
}

impl SmartCache {
    /// One broadcaster tick: harvests every interval of the batch in
    /// order and returns the merged `(tag, value)` pairs, stamping
    /// everything emitted.
    pub fn harvest_batch(&mut self, intervals: &Vec<u64>, now_ns: u128) -> (r: Vec<
        (String, String),
    >)
        ensures
            final(self)@.entries == harvest_run(
                old(self)@.entries,
                intervals@,
                now_ns as nat,
            ).0,
            pairs_view(r@) == harvest_run(old(self)@.entries, intervals@, now_ns as nat).1,
            final(self)@.tracking == old(self)@.tracking,
            final(self).tag_mappings_cache@ == old(self).tag_mappings_cache@,
            final(self).cache_size_limit == old(self).cache_size_limit,
    {
        let ghost m0 = self@.entries;
        let mut r: Vec<(String, String)> = Vec::new();
        let mut i: usize = 0;
        proof {
            assert(intervals@.skip(0) =~= intervals@);
            assert(pairs_view(r@) =~= Seq::<(Seq<char>, Seq<char>)>::empty());
        }
        while i < intervals.len()
            invariant
                0 <= i <= intervals@.len(),
                harvest_run(m0, intervals@, now_ns as nat).0 == harvest_run(
                    self@.entries,
                    intervals@.skip(i as int),
                    now_ns as nat,
                ).0,
                harvest_run(m0, intervals@, now_ns as nat).1 =~= pairs_view(r@) + harvest_run(
                    self@.entries,
                    intervals@.skip(i as int),
                    now_ns as nat,
                ).1,
                self@.tracking == old(self)@.tracking,
                self.tag_mappings_cache@ == old(self).tag_mappings_cache@,
                self.cache_size_limit == old(self).cache_size_limit,
            decreases intervals@.len() - i,
        {
            proof {
                assert(intervals@.skip(i as int).first() == intervals@[i as int]);
                assert(intervals@.skip(i as int).drop_first() =~= intervals@.skip(i as int + 1));
            }
            let ghost cur = self@.entries;
            let ghost old_pairs = pairs_view(r@);
            let mut part = self.get_tags_for_broadcast(intervals[i], now_ns);
            r.append(&mut part);
            proof {
                assert(pairs_view(r@) =~= old_pairs + harvest_list(
                    cur,
                    intervals@[i as int] as nat,
                    now_ns as nat,
                ));
            }
            i = i + 1;
        }
        proof {
            assert(harvest_run(
                self@.entries,
                intervals@.skip(intervals@.len() as int),
                now_ns as nat,
            ).1.len() == 0);
            assert(pairs_view(r@) =~= harvest_run(m0, intervals@, now_ns as nat).1);
        }
        r
    }
}

/// How long cached tag definitions are trusted before a refresh from
/// the store is due.
pub const DEFS_REFRESH_NS: u128 = 60_000_000_000;

/// Whether the definitions cache is stale: more than the refresh
/// period has passed since it was last filled.
pub fn should_refresh_cache(last_refresh_ns: u128, now_ns: u128) -> (r: bool)
    ensures
        r == (now_ns > last_refresh_ns && now_ns - last_refresh_ns > DEFS_REFRESH_NS),
{
    now_ns > last_refresh_ns && now_ns - last_refresh_ns > DEFS_REFRESH_NS
}

/// How long the cache sweep rests between runs.
pub const SWEEP_THROTTLE_NS: u128 = 30_000_000_000;

/// Whether the memory sweep may run again.
pub fn sweep_due(last_sweep_ns: u128, now_ns: u128) -> (r: bool)
    ensures
        r == (now_ns > last_sweep_ns && now_ns - last_sweep_ns > SWEEP_THROTTLE_NS),
{
    now_ns > last_sweep_ns && now_ns - last_sweep_ns > SWEEP_THROTTLE_NS
}

} // verus!
