//! The in-memory image of the schema and tag store.
//!
//! The on-disk store is an external collaborator; the bridge works
//! against this authoritative in-memory copy, which the surrounding
//! application fills from disk and writes back. Saving a schema and
//! loading it returns the same block list in the same order with the
//! same total size.

use crate::cache::TagMapping;
use crate::parser::{blocks_view, schema_size, type_size, DataBlockConfig, PlcStructureConfig};
use vstd::prelude::*;

verus! {

/// The stored schemas, tag definitions and broadcaster settings.
#[derive(Debug)]
pub struct SchemaStore {
    pub schemas: Vec<PlcStructureConfig>,
    pub tags: Vec<TagMapping>,
}

/// The schema stored for `plc`, if any: the whole record of the first
/// entry carrying that identity.
pub open spec fn schema_lookup(schemas: Seq<PlcStructureConfig>, plc: Seq<char>) -> Option<
    PlcStructureConfig,
>
    decreases schemas.len(),
{
    if schemas.len() == 0 {
        None
    } else if schemas.first().plc_ip@ == plc {
        Some(schemas.first())
    } else {
        schema_lookup(schemas.drop_first(), plc)
    }
}

/// Whether a tag definition for `(plc, path)` is stored.
pub open spec fn has_tag(tags: Seq<TagMapping>, plc: Seq<char>, path: Seq<char>) -> bool {
    exists|i: int|
        0 <= i < tags.len() && (#[trigger] tags[i]).plc_ip@ == plc && tags[i].variable_path@
            == path
}

/// The stored tag definitions of one PLC, in order.
pub open spec fn tags_of(tags: Seq<TagMapping>, plc: Seq<char>) -> Seq<TagMapping> {
    tags.filter(|t: TagMapping| t.plc_ip@ == plc)
}

/// The stored enabled tag definitions of one PLC, in order.
pub open spec fn active_tags_of(tags: Seq<TagMapping>, plc: Seq<char>) -> Seq<TagMapping> {
    tags.filter(|t: TagMapping| t.plc_ip@ == plc && t.enabled)
}

impl SchemaStore {
    /// An empty store.
    pub fn new() -> (r: SchemaStore)
        ensures
            r.schemas@.len() == 0,
            r.tags@.len() == 0,
    {
        SchemaStore { schemas: Vec::new(), tags: Vec::new() }
    }

    /// Finds the schema entry for `plc`.
    fn find_schema(&self, plc: &str) -> (r: Option<usize>)
        ensures
            match r {
                Some(i) => {
                    &&& i < self.schemas@.len()
                    &&& self.schemas@[i as int].plc_ip@ == plc@
                    &&& schema_lookup(self.schemas@, plc@) == Some(self.schemas@[i as int])
                    &&& forall|j: int|
                        0 <= j < i ==> (#[trigger] self.schemas@[j]).plc_ip@ != plc@
                },
                None => schema_lookup(self.schemas@, plc@) is None,
            },
    {
        proof {
            assert(self.schemas@.skip(0) =~= self.schemas@);
        }
        let mut i: usize = 0;
        while i < self.schemas.len()
            invariant
                0 <= i <= self.schemas@.len(),
                schema_lookup(self.schemas@, plc@) == schema_lookup(
                    self.schemas@.skip(i as int),
                    plc@,
                ),
                forall|j: int| 0 <= j < i ==> (#[trigger] self.schemas@[j]).plc_ip@ != plc@,
            decreases self.schemas@.len() - i,
        {
            proof {
                assert(self.schemas@.skip(i as int).first() == self.schemas@[i as int]);
                assert(self.schemas@.skip(i as int).drop_first() =~= self.schemas@.skip(
                    i as int + 1,
                ));
            }
            if crate::parser::str_eq(self.schemas[i].plc_ip.as_str(), plc) {
                return Some(i);
            }
            i = i + 1;
        }
        proof {
            assert(self.schemas@.skip(self.schemas@.len() as int).len() == 0);
        }
        None
    }

    /// Saves a schema: loading the same identity afterwards yields
    /// this very record — same block list, same order, same total
    /// size. The first entry of the same identity is replaced in
    /// place, or the schema is appended; every other entry is
    /// untouched.
    pub fn save_plc_structure(&mut self, config: PlcStructureConfig)
        ensures
            schema_lookup(final(self).schemas@, config.plc_ip@) == Some(config),
            forall|plc: Seq<char>|
                plc != config.plc_ip@ ==> schema_lookup(final(self).schemas@, plc)
                    == schema_lookup(old(self).schemas@, plc),
            (exists|i: int|
                {
                    &&& 0 <= i < old(self).schemas@.len()
                    &&& (#[trigger] old(self).schemas@[i]).plc_ip@ == config.plc_ip@
                    &&& final(self).schemas@ == old(self).schemas@.update(i, config)
                }) || ({
                &&& schema_lookup(old(self).schemas@, config.plc_ip@) is None
                &&& final(self).schemas@ == old(self).schemas@.push(config)
            }),
            final(self).tags@ == old(self).tags@,
    {
        let found = self.find_schema(config.plc_ip.as_str());
        match found {
            Some(i) => {
                let ghost key = config.plc_ip@;
                self.schemas.set(i, config);
                proof {
                    lemma_schema_lookup_update(old(self).schemas@, self.schemas@[i as int], i as int);
                    assert(old(self).schemas@[i as int].plc_ip@ == key);
                }
            },
            None => {
                let ghost before = self.schemas@;
                self.schemas.push(config);
                proof {
                    lemma_schema_lookup_push(before, self.schemas@.last());
                }
            },
        }
    }

    /// Loads the schema stored for `plc`, if any.
    pub fn load_plc_structure(&self, plc: &str) -> (r: Option<&PlcStructureConfig>)
        ensures
            match r {
                Some(c) => schema_lookup(self.schemas@, plc@) == Some(*c),
                None => schema_lookup(self.schemas@, plc@) is None,
            },
    {
        match self.find_schema(plc) {
            Some(i) => Some(&self.schemas[i]),
            None => None,
        }
    }

    /// Drops the schema stored for `plc`: exactly the schemas of the
    /// other identities survive, in order.
    pub fn delete_plc_structure(&mut self, plc: &str)
        ensures
            schema_lookup(final(self).schemas@, plc@) is None,
            final(self).schemas@ == without_identity(old(self).schemas@, plc@),
            final(self).tags@ == old(self).tags@,
    {
        loop
            invariant
                self.tags@ == old(self).tags@,
                without_identity(self.schemas@, plc@) == without_identity(
                    old(self).schemas@,
                    plc@,
                ),
            ensures
                schema_lookup(self.schemas@, plc@) is None,
                self.tags@ == old(self).tags@,
                without_identity(self.schemas@, plc@) == without_identity(
                    old(self).schemas@,
                    plc@,
                ),
            decreases self.schemas@.len(),
        {
            let hit = self.find_schema(plc);
            match hit {
                None => {
                    break ;
                },
                Some(i) => {
                    let ghost before = self.schemas@;
                    self.schemas.remove(i);
                    proof {
                        lemma_without_identity_remove_match(before, plc@, i as int);
                    }
                },
            }
        }
        proof {
            lemma_without_identity_none(self.schemas@, plc@);
        }
    }

    /// The identities with a stored schema, the most recently updated
    /// first: the result lists each stored identity exactly once (as
    /// one key per entry, and the store keeps one entry per
    /// identity), in an order of non-increasing `last_updated`.
    pub fn list_configured_plcs(&self) -> (r: Vec<String>)
        ensures
            r@.len() == self.schemas@.len(),
            exists|order: Seq<(String, i64)>|
                {
                    &&& (#[trigger] order.to_multiset()) == schema_keys(
                        self.schemas@,
                    ).to_multiset()
                    &&& (forall|i: int, j: int|
                        0 <= i < j < order.len() ==> (#[trigger] order[i]).1 >= (
                        #[trigger] order[j]).1)
                    &&& r@.len() == order.len()
                    &&& (forall|i: int| 0 <= i < r@.len() ==> (#[trigger] r@[i]) == order[i].0)
                },
    {
        broadcast use vstd::seq_lib::group_to_multiset_ensures;

        let mut pending: Vec<(String, i64)> = Vec::new();
        let mut i: usize = 0;
        while i < self.schemas.len()
            invariant
                0 <= i <= self.schemas@.len(),
                pending@ =~= schema_keys(self.schemas@.take(i as int)),
            decreases self.schemas@.len() - i,
        {
            proof {
                assert(self.schemas@.take(i as int + 1).drop_last() =~= self.schemas@.take(
                    i as int,
                ));
                assert(self.schemas@.take(i as int + 1).last() == self.schemas@[i as int]);
                assert(schema_keys(self.schemas@.take(i as int + 1)) =~= schema_keys(
                    self.schemas@.take(i as int),
                ).push((self.schemas@[i as int].plc_ip, self.schemas@[i as int].last_updated)));
            }
            pending.push((self.schemas[i].plc_ip.clone(), self.schemas[i].last_updated));
            i = i + 1;
        }
        proof {
            assert(self.schemas@.take(self.schemas@.len() as int) =~= self.schemas@);
            assert(pending@ =~= schema_keys(self.schemas@));
        }
        let ghost keys = pending@;
        let mut sorted: Vec<(String, i64)> = Vec::new();
        proof {
            assert(sorted@.to_multiset().add(pending@.to_multiset()) =~= pending@.to_multiset());
            assert(sorted@.to_multiset() =~= vstd::multiset::Multiset::<(String, i64)>::empty());
        }
        while pending.len() > 0
            invariant
                sorted@.to_multiset().add(pending@.to_multiset()) == keys.to_multiset(),
                sorted@.len() + pending@.len() == keys.len(),
                forall|i: int, j: int|
                    0 <= i < j < sorted@.len() ==> (#[trigger] sorted@[i]).1 >= (
                    #[trigger] sorted@[j]).1,
                forall|i: int, j: int|
                    0 <= i < sorted@.len() && 0 <= j < pending@.len() ==> (
                    #[trigger] sorted@[i]).1 >= (#[trigger] pending@[j]).1,
            decreases pending@.len(),
        {
            let mut best: usize = 0;
            let mut k: usize = 1;
            while k < pending.len()
                invariant
                    0 <= best < k <= pending@.len(),
                    forall|j: int|
                        0 <= j < k ==> (#[trigger] pending@[j]).1 <= pending@[best as int].1,
                decreases pending@.len() - k,
            {
                if pending[k].1 > pending[best].1 {
                    best = k;
                }
                k = k + 1;
            }
            let ghost before = pending@;
            let picked = pending.remove(best);
            let ghost sbefore = sorted@;
            sorted.push(picked);
            proof {
                before.to_multiset_ensures();
                sbefore.to_multiset_ensures();
                assert(pending@ =~= before.remove(best as int));
                assert(before[best as int] == picked);
                assert(before.remove(best as int).to_multiset() =~= before.to_multiset().remove(
                    picked,
                ));
                assert(before.contains(picked)) by {
                    assert(before[best as int] == picked);
                }
                assert(before.to_multiset().count(picked) > 0);
                assert(before.to_multiset() =~= pending@.to_multiset().insert(picked));
                assert(sorted@ =~= sbefore.push(picked));
                assert(sbefore.push(picked).to_multiset() =~= sbefore.to_multiset().insert(
                    picked,
                ));
                assert(sorted@.to_multiset().add(pending@.to_multiset()) =~= (
                sbefore.to_multiset().insert(picked)).add(pending@.to_multiset()));
                assert((sbefore.to_multiset().insert(picked)).add(pending@.to_multiset())
                    =~= sbefore.to_multiset().add(pending@.to_multiset().insert(picked)));
                assert forall|i: int, j: int|
                    0 <= i < sorted@.len() && 0 <= j < pending@.len() implies (
                #[trigger] sorted@[i]).1 >= (#[trigger] pending@[j]).1 by {
                    if j < best {
                        assert(pending@[j] == before[j]);
                    } else {
                        assert(pending@[j] == before[j + 1]);
                    }
                    if i == sorted@.len() - 1 {
                        assert(sorted@[i] == picked);
                    } else {
                        assert(sorted@[i] == sbefore[i]);
                    }
                }
            }
        }
        proof {
            assert(pending@.to_multiset() =~= vstd::multiset::Multiset::<(String, i64)>::empty());
            assert(sorted@.to_multiset() =~= keys.to_multiset());
        }
        let mut r: Vec<String> = Vec::new();
        let mut i: usize = 0;
        while i < sorted.len()
            invariant
                0 <= i <= sorted@.len(),
                r@.len() == i,
                forall|j: int| 0 <= j < i ==> (#[trigger] r@[j]) == sorted@[j].0,
            decreases sorted@.len() - i,
        {
            r.push(sorted[i].0.clone());
            i = i + 1;
        }
        proof {
            sorted@.to_multiset_ensures();
            keys.to_multiset_ensures();
            assert(sorted@.len() == keys.len());
            assert(keys.len() == self.schemas@.len()) by {
                lemma_schema_keys_len(self.schemas@);
            }
        }
        r
    }

    /// Saves one tag definition: the first entry stored for the same
    /// `(plc_ip, variable_path)` is replaced in place, or the
    /// definition is appended; every other definition is untouched.
    pub fn save_tag_mapping(&mut self, tag: TagMapping)
        ensures
            final(self).schemas@ == old(self).schemas@,
            has_tag(final(self).tags@, tag.plc_ip@, tag.variable_path@),
            (exists|i: int|
                {
                    &&& 0 <= i < old(self).tags@.len()
                    &&& (#[trigger] old(self).tags@[i]).plc_ip@ == tag.plc_ip@
                    &&& old(self).tags@[i].variable_path@ == tag.variable_path@
                    &&& final(self).tags@ == old(self).tags@.update(i, tag)
                }) || ({
                &&& !has_tag(old(self).tags@, tag.plc_ip@, tag.variable_path@)
                &&& final(self).tags@ == old(self).tags@.push(tag)
            }),
    {
        let mut i: usize = 0;
        let n = self.tags.len();
        while i < n
            invariant
                0 <= i <= n,
                n == self.tags@.len(),
                self.tags@ == old(self).tags@,
                self.schemas@ == old(self).schemas@,
                forall|j: int|
                    0 <= j < i ==> !((#[trigger] self.tags@[j]).plc_ip@ == tag.plc_ip@
                        && self.tags@[j].variable_path@ == tag.variable_path@),
            decreases n - i,
        {
            let hit = crate::parser::str_eq(self.tags[i].plc_ip.as_str(), tag.plc_ip.as_str())
                && crate::parser::str_eq(
                self.tags[i].variable_path.as_str(),
                tag.variable_path.as_str(),
            );
            if hit {
                let ghost tp = tag.plc_ip@;
                let ghost tv = tag.variable_path@;
                self.tags.set(i, tag);
                proof {
                    assert(self.tags@[i as int].plc_ip@ == tp);
                    assert(self.tags@[i as int].variable_path@ == tv);
                    assert(old(self).tags@[i as int].plc_ip@ == tp);
                    assert(self.tags@ =~= old(self).tags@.update(
                        i as int,
                        self.tags@[i as int],
                    ));
                }
                return ;
            }
            i = i + 1;
        }
        let ghost tp = tag.plc_ip@;
        let ghost tv = tag.variable_path@;
        self.tags.push(tag);
        proof {
            assert(self.tags@.last().plc_ip@ == tp);
            assert(self.tags@.last().variable_path@ == tv);
            assert(has_tag(self.tags@, tp, tv)) by {
                assert(self.tags@[self.tags@.len() - 1].plc_ip@ == tp);
            }
            assert(!has_tag(old(self).tags@, tp, tv));
            assert(self.tags@ =~= old(self).tags@.push(self.tags@.last()));
        }
    }

    /// Every stored tag definition of one PLC, in storage order.
    pub fn load_tag_mappings(&self, plc: &str) -> (r: Vec<TagMapping>)
        ensures
            r@ == tags_of(self.tags@, plc@),
    {
        let mut r: Vec<TagMapping> = Vec::new();
        let mut i: usize = 0;
        proof {
            assert(self.tags@.take(0).filter(|t: TagMapping| t.plc_ip@ == plc@) =~= Seq::<
                TagMapping,
            >::empty());
        }
        while i < self.tags.len()
            invariant
                0 <= i <= self.tags@.len(),
                r@ =~= self.tags@.take(i as int).filter(|t: TagMapping| t.plc_ip@ == plc@),
            decreases self.tags@.len() - i,
        {
            proof {
                assert(self.tags@.take(i as int + 1).drop_last() =~= self.tags@.take(i as int));
                assert(self.tags@.take(i as int + 1).last() == self.tags@[i as int]);
                reveal(Seq::filter);
            }
            if crate::parser::str_eq(self.tags[i].plc_ip.as_str(), plc) {
                r.push(self.tags[i].clone_tag());
            }
            proof {
                reveal(Seq::filter);
            }
            i = i + 1;
        }
        proof {
            assert(self.tags@.take(self.tags@.len() as int) =~= self.tags@);
        }
        r
    }

    /// The enabled tag definitions of one PLC, in storage order.
    pub fn get_active_tags(&self, plc: &str) -> (r: Vec<TagMapping>)
        ensures
            r@ == active_tags_of(self.tags@, plc@),
    {
        let mut r: Vec<TagMapping> = Vec::new();
        let mut i: usize = 0;
        proof {
            assert(self.tags@.take(0).filter(|t: TagMapping| t.plc_ip@ == plc@ && t.enabled)
                =~= Seq::<TagMapping>::empty());
        }
        while i < self.tags.len()
            invariant
                0 <= i <= self.tags@.len(),
                r@ =~= self.tags@.take(i as int).filter(
                    |t: TagMapping| t.plc_ip@ == plc@ && t.enabled,
                ),
            decreases self.tags@.len() - i,
        {
            proof {
                assert(self.tags@.take(i as int + 1).drop_last() =~= self.tags@.take(i as int));
                assert(self.tags@.take(i as int + 1).last() == self.tags@[i as int]);
            }
            if crate::parser::str_eq(self.tags[i].plc_ip.as_str(), plc) && self.tags[i].enabled {
                r.push(self.tags[i].clone_tag());
            }
            proof {
                reveal(Seq::filter);
            }
            i = i + 1;
        }
        proof {
            assert(self.tags@.take(self.tags@.len() as int) =~= self.tags@);
        }
        r
    }

    /// Finds the first tag definition stored for `(plc, path)`.
    fn find_tag(&self, plc: &str, path: &str) -> (r: Option<usize>)
        ensures
            match r {
                Some(i) => {
                    &&& i < self.tags@.len()
                    &&& self.tags@[i as int].plc_ip@ == plc@
                    &&& self.tags@[i as int].variable_path@ == path@
                    &&& forall|j: int|
                        0 <= j < i ==> !((#[trigger] self.tags@[j]).plc_ip@ == plc@
                            && self.tags@[j].variable_path@ == path@)
                },
                None => !has_tag(self.tags@, plc@, path@),
            },
    {
        let mut i: usize = 0;
        while i < self.tags.len()
            invariant
                0 <= i <= self.tags@.len(),
                forall|j: int|
                    0 <= j < i ==> !((#[trigger] self.tags@[j]).plc_ip@ == plc@
                        && self.tags@[j].variable_path@ == path@),
            decreases self.tags@.len() - i,
        {
            let hit = crate::parser::str_eq(self.tags[i].plc_ip.as_str(), plc)
                && crate::parser::str_eq(self.tags[i].variable_path.as_str(), path);
            if hit {
                return Some(i);
            }
            i = i + 1;
        }
        None
    }

    /// Deletes the tag definitions stored for `(plc, path)`: exactly
    /// the other definitions survive, in order.
    pub fn delete_tag_mapping(&mut self, plc: &str, path: &str)
        ensures
            final(self).schemas@ == old(self).schemas@,
            !has_tag(final(self).tags@, plc@, path@),
            final(self).tags@ == without_key(old(self).tags@, plc@, path@),
    {
        loop
            invariant
                self.schemas@ == old(self).schemas@,
                without_key(self.tags@, plc@, path@) == without_key(
                    old(self).tags@,
                    plc@,
                    path@,
                ),
            ensures
                self.schemas@ == old(self).schemas@,
                !has_tag(self.tags@, plc@, path@),
                without_key(self.tags@, plc@, path@) == without_key(
                    old(self).tags@,
                    plc@,
                    path@,
                ),
            decreases self.tags@.len(),
        {
            let hit = self.find_tag(plc, path);
            match hit {
                None => {
                    break ;
                },
                Some(i) => {
                    let ghost before = self.tags@;
                    self.tags.remove(i);
                    proof {
                        lemma_without_key_remove_match(before, plc@, path@, i as int);
                    }
                },
            }
        }
        proof {
            lemma_without_key_identity(self.tags@, plc@, path@);
        }
    }
}

impl TagMapping {
    /// A field-for-field copy.
    pub fn clone_tag(&self) -> (r: TagMapping)
        ensures
            r == *self,
    {
        TagMapping {
            tag_name: self.tag_name.clone(),
            plc_ip: self.plc_ip.clone(),
            variable_path: self.variable_path.clone(),
            description: match &self.description {
                Some(d) => Some(d.clone()),
                None => None,
            },
            unit: match &self.unit {
                Some(u) => Some(u.clone()),
                None => None,
            },
            enabled: self.enabled,
            created_at: self.created_at,
            collect_mode: match &self.collect_mode {
                Some(m) => Some(m.clone()),
                None => None,
            },
            collect_interval_s: self.collect_interval_s,
        }
    }
}


/// The stored definitions that do not carry the key, in order.
pub open spec fn without_key(tags: Seq<TagMapping>, plc: Seq<char>, path: Seq<char>) -> Seq<
    TagMapping,
>
    decreases tags.len(),
{
    if tags.len() == 0 {
        Seq::<TagMapping>::empty()
    } else {
        (if tags.first().plc_ip@ == plc && tags.first().variable_path@ == path {
            Seq::<TagMapping>::empty()
        } else {
            seq![tags.first()]
        }) + without_key(tags.drop_first(), plc, path)
    }
}

/// Removing the first key match leaves the other definitions alone.
proof fn lemma_without_key_remove_match(
    tags: Seq<TagMapping>,
    plc: Seq<char>,
    path: Seq<char>,
    i: int,
)
    requires
        0 <= i < tags.len(),
        tags[i].plc_ip@ == plc && tags[i].variable_path@ == path,
        forall|j: int|
            0 <= j < i ==> !((#[trigger] tags[j]).plc_ip@ == plc && tags[j].variable_path@
                == path),
    ensures
        without_key(tags.remove(i), plc, path) == without_key(tags, plc, path),
    decreases i,
{
    if i == 0 {
        assert(tags[0] == tags.first());
        assert(tags.remove(0) =~= tags.drop_first());
    } else {
        assert(tags[0] == tags.first());
        assert(tags.remove(i).first() == tags.first());
        assert(tags.remove(i).drop_first() =~= tags.drop_first().remove(i - 1));
        assert(tags.drop_first()[i - 1] == tags[i]);
        assert forall|j: int|
            0 <= j < i - 1 implies !((#[trigger] tags.drop_first()[j]).plc_ip@ == plc
                && tags.drop_first()[j].variable_path@ == path) by {
            assert(tags.drop_first()[j] == tags[j + 1]);
        }
        lemma_without_key_remove_match(tags.drop_first(), plc, path, i - 1);
        assert(without_key(tags.remove(i), plc, path) =~= seq![tags.first()] + without_key(
            tags.drop_first().remove(i - 1),
            plc,
            path,
        ));
        assert(without_key(tags, plc, path) =~= seq![tags.first()] + without_key(
            tags.drop_first(),
            plc,
            path,
        ));
    }
}

/// A list with no key match survives the deletion unchanged.
proof fn lemma_without_key_identity(tags: Seq<TagMapping>, plc: Seq<char>, path: Seq<char>)
    requires
        !has_tag(tags, plc, path),
    ensures
        without_key(tags, plc, path) =~= tags,
    decreases tags.len(),
{
    if tags.len() > 0 {
        assert(!(tags.first().plc_ip@ == plc && tags.first().variable_path@ == path)) by {
            assert(tags[0] == tags.first());
        }
        assert(!has_tag(tags.drop_first(), plc, path)) by {
            if has_tag(tags.drop_first(), plc, path) {
                let j = choose|j: int|
                    0 <= j < tags.drop_first().len() && (#[trigger] tags.drop_first()[j]).plc_ip@
                        == plc && tags.drop_first()[j].variable_path@ == path;
                assert(tags[j + 1] == tags.drop_first()[j]);
            }
        }
        lemma_without_key_identity(tags.drop_first(), plc, path);
        assert(without_key(tags, plc, path) =~= seq![tags.first()] + tags.drop_first());
        assert(seq![tags.first()] + tags.drop_first() =~= tags);
    }
}


/// The identity and update stamp of each stored schema, in order.
pub open spec fn schema_keys(schemas: Seq<PlcStructureConfig>) -> Seq<(String, i64)>
    decreases schemas.len(),
{
    if schemas.len() == 0 {
        Seq::<(String, i64)>::empty()
    } else {
        schema_keys(schemas.drop_last()).push(
            (schemas.last().plc_ip, schemas.last().last_updated),
        )
    }
}

proof fn lemma_schema_keys_len(schemas: Seq<PlcStructureConfig>)
    ensures
        schema_keys(schemas).len() == schemas.len(),
    decreases schemas.len(),
{
    if schemas.len() > 0 {
        lemma_schema_keys_len(schemas.drop_last());
    }
}

/// The stored schemas of the other identities, in order.
pub open spec fn without_identity(schemas: Seq<PlcStructureConfig>, plc: Seq<char>) -> Seq<
    PlcStructureConfig,
>
    decreases schemas.len(),
{
    if schemas.len() == 0 {
        Seq::<PlcStructureConfig>::empty()
    } else {
        (if schemas.first().plc_ip@ == plc {
            Seq::<PlcStructureConfig>::empty()
        } else {
            seq![schemas.first()]
        }) + without_identity(schemas.drop_first(), plc)
    }
}

/// Removing the first identity match leaves the others alone.
proof fn lemma_without_identity_remove_match(
    schemas: Seq<PlcStructureConfig>,
    plc: Seq<char>,
    i: int,
)
    requires
        0 <= i < schemas.len(),
        schemas[i].plc_ip@ == plc,
        forall|j: int| 0 <= j < i ==> (#[trigger] schemas[j]).plc_ip@ != plc,
    ensures
        without_identity(schemas.remove(i), plc) == without_identity(schemas, plc),
    decreases i,
{
    if i == 0 {
        assert(schemas[0] == schemas.first());
        assert(schemas.remove(0) =~= schemas.drop_first());
    } else {
        assert(schemas[0] == schemas.first());
        assert(schemas.remove(i).first() == schemas.first());
        assert(schemas.remove(i).drop_first() =~= schemas.drop_first().remove(i - 1));
        assert(schemas.drop_first()[i - 1] == schemas[i]);
        assert forall|j: int|
            0 <= j < i - 1 implies (#[trigger] schemas.drop_first()[j]).plc_ip@ != plc by {
            assert(schemas.drop_first()[j] == schemas[j + 1]);
        }
        lemma_without_identity_remove_match(schemas.drop_first(), plc, i - 1);
        assert(without_identity(schemas.remove(i), plc) =~= seq![schemas.first()]
            + without_identity(schemas.drop_first().remove(i - 1), plc));
        assert(without_identity(schemas, plc) =~= seq![schemas.first()] + without_identity(
            schemas.drop_first(),
            plc,
        ));
    }
}

/// A list with no identity match survives the deletion unchanged.
proof fn lemma_without_identity_none(schemas: Seq<PlcStructureConfig>, plc: Seq<char>)
    requires
        schema_lookup(schemas, plc) is None,
    ensures
        without_identity(schemas, plc) =~= schemas,
    decreases schemas.len(),
{
    if schemas.len() > 0 {
        lemma_without_identity_none(schemas.drop_first(), plc);
        assert(without_identity(schemas, plc) =~= seq![schemas.first()]
            + schemas.drop_first());
        assert(seq![schemas.first()] + schemas.drop_first() =~= schemas);
    }
}

/// Updating the first match makes the lookup return the new record
/// and leaves other identities alone.
proof fn lemma_schema_lookup_update(
    schemas: Seq<PlcStructureConfig>,
    config: PlcStructureConfig,
    i: int,
)
    requires
        0 <= i < schemas.len(),
        schemas[i].plc_ip@ == config.plc_ip@,
        forall|j: int| 0 <= j < i ==> (#[trigger] schemas[j]).plc_ip@ != config.plc_ip@,
    ensures
        schema_lookup(schemas.update(i, config), config.plc_ip@) == Some(config),
        forall|plc: Seq<char>|
            plc != config.plc_ip@ ==> schema_lookup(schemas.update(i, config), plc)
                == schema_lookup(schemas, plc),
    decreases schemas.len(),
{
    if i == 0 {
        assert(schemas.update(0, config).first() == config);
        assert forall|plc: Seq<char>|
            plc != config.plc_ip@ implies schema_lookup(schemas.update(0, config), plc)
            == schema_lookup(schemas, plc) by {
            assert(schemas.update(0, config).drop_first() =~= schemas.drop_first());
        }
    } else {
        assert(schemas.update(i, config).first() == schemas.first());
        assert(schemas.update(i, config).drop_first() =~= schemas.drop_first().update(
            i - 1,
            config,
        ));
        assert(schemas.drop_first()[i - 1] == schemas[i]);
        assert forall|j: int|
            0 <= j < i - 1 implies (#[trigger] schemas.drop_first()[j]).plc_ip@
                != config.plc_ip@ by {
            assert(schemas.drop_first()[j] == schemas[j + 1]);
        }
        lemma_schema_lookup_update(schemas.drop_first(), config, i - 1);
        assert(schemas[0] == schemas.first());
        assert forall|plc: Seq<char>|
            plc != config.plc_ip@ implies schema_lookup(schemas.update(i, config), plc)
            == schema_lookup(schemas, plc) by {
            if schemas.first().plc_ip@ != plc {
                assert(schema_lookup(schemas.update(i, config), plc) == schema_lookup(
                    schemas.drop_first().update(i - 1, config),
                    plc,
                ));
                assert(schema_lookup(schemas, plc) == schema_lookup(schemas.drop_first(), plc));
            }
        }
    }
}

/// Pushing a schema for a fresh identity makes the lookup return it
/// and leaves other identities alone.
proof fn lemma_schema_lookup_push(schemas: Seq<PlcStructureConfig>, config: PlcStructureConfig)
    requires
        schema_lookup(schemas, config.plc_ip@) is None,
    ensures
        schema_lookup(schemas.push(config), config.plc_ip@) == Some(config),
        forall|plc: Seq<char>|
            plc != config.plc_ip@ ==> schema_lookup(schemas.push(config), plc) == schema_lookup(
                schemas,
                plc,
            ),
    decreases schemas.len(),
{
    if schemas.len() == 0 {
        assert(schemas.push(config).first() == config);
        assert forall|plc: Seq<char>|
            plc != config.plc_ip@ implies schema_lookup(schemas.push(config), plc)
            == schema_lookup(schemas, plc) by {
            assert(schemas.push(config).drop_first() =~= Seq::<PlcStructureConfig>::empty());
            assert(schema_lookup(Seq::<PlcStructureConfig>::empty(), plc) is None);
        }
    } else {
        assert(schemas.push(config).first() == schemas.first());
        assert(schemas.push(config).drop_first() =~= schemas.drop_first().push(config));
        lemma_schema_lookup_push(schemas.drop_first(), config);
        assert forall|plc: Seq<char>|
            plc != config.plc_ip@ implies schema_lookup(schemas.push(config), plc)
            == schema_lookup(schemas, plc) by {
            if schemas.first().plc_ip@ != plc {
                assert(schema_lookup(schemas.push(config), plc) == schema_lookup(
                    schemas.drop_first().push(config),
                    plc,
                ));
                assert(schema_lookup(schemas.drop_first().push(config), plc) == schema_lookup(
                    schemas.drop_first(),
                    plc,
                ));
                assert(schema_lookup(schemas, plc) == schema_lookup(schemas.drop_first(), plc));
            } else {
                assert(schema_lookup(schemas.push(config), plc) == Some(schemas.first()));
                assert(schema_lookup(schemas, plc) == Some(schemas.first()));
            }
        }
    }
}

/// Builds a schema from its blocks: the total size is the sum the
/// blocks lay out. An unknown data type name is refused with its
/// name.
pub fn build_plc_structure(
    plc_ip: String,
    blocks: Vec<DataBlockConfig>,
    last_updated: i64,
) -> (r: Result<PlcStructureConfig, String>)
    ensures
        match r {
            Ok(c) => {
                &&& c.wf()
                &&& c.plc_ip@ == plc_ip@
                &&& c.blocks@ == blocks@
                &&& c.last_updated == last_updated
                &&& forall|i: int|
                    0 <= i < blocks@.len() ==> type_size((#[trigger] blocks@[i])@.data_type) > 0
            },
            Err(_) => (exists|i: int|
                0 <= i < blocks@.len() && type_size((#[trigger] blocks@[i])@.data_type) == 0)
                || schema_size(blocks_view(blocks@)) > usize::MAX,
        },
{
    let mut total: usize = 0;
    let mut i: usize = 0;
    while i < blocks.len()
        invariant
            0 <= i <= blocks@.len(),
            total as nat == schema_size(blocks_view(blocks@.take(i as int))),
            forall|j: int|
                0 <= j < i ==> type_size((#[trigger] blocks@[j])@.data_type) > 0,
        decreases blocks@.len() - i,
    {
        let ts: usize = match crate::parser::kind_from_str(blocks[i].data_type.as_str()) {
            Some(k) => crate::parser::kind_size_exec(k),
            None => {
                return Err(blocks[i].data_type.clone());
            },
        };
        proof {
            crate::parser::lemma_kind_size(blocks@[i as int]@.data_type);
            lemma_schema_size_take(blocks_view(blocks@), i as int);
            assert(blocks_view(blocks@.take(i as int + 1)) =~= blocks_view(blocks@).take(
                i as int + 1,
            ));
            assert(blocks_view(blocks@.take(i as int)) =~= blocks_view(blocks@).take(i as int));
            assert(ts as nat * (blocks@[i as int].count as nat) <= 8 * 0xFFFFFFFFnat)
                by (nonlinear_arith)
                requires
                    ts <= 8,
                    blocks@[i as int].count <= 0xFFFFFFFF,
            ;
        }
        let count_us: usize = blocks[i].count as usize;
        let add_big: u64 = (ts as u64) * (blocks[i].count as u64);
        if (total as u64) as u128 + add_big as u128 > usize::MAX as u128 {
            // a schema this large cannot describe a real frame
            proof {
                lemma_schema_size_take_le(blocks_view(blocks@), i as int + 1);
                assert(schema_size(blocks_view(blocks@)) > usize::MAX);
            }
            return Err(blocks[i].data_type.clone());
        }
        let add: usize = (add_big as usize);
        total = total + add;
        i = i + 1;
    }
    proof {
        assert(blocks@.take(blocks@.len() as int) =~= blocks@);
    }
    Ok(PlcStructureConfig { plc_ip, blocks, total_size: total, last_updated })
}

/// The running sum never shrinks as blocks are added.
proof fn lemma_schema_size_take_le(blocks: Seq<crate::parser::DataBlockView>, i: int)
    requires
        0 <= i <= blocks.len(),
    ensures
        schema_size(blocks.take(i)) <= schema_size(blocks),
    decreases blocks.len() - i,
{
    if i < blocks.len() {
        lemma_schema_size_take(blocks, i);
        lemma_schema_size_take_le(blocks, i + 1);
    } else {
        assert(blocks.take(i) =~= blocks);
    }
}

/// One step of the schema size sum.
proof fn lemma_schema_size_take(blocks: Seq<crate::parser::DataBlockView>, i: int)
    requires
        0 <= i < blocks.len(),
    ensures
        schema_size(blocks.take(i + 1)) == schema_size(blocks.take(i)) + type_size(
            blocks[i].data_type,
        ) * blocks[i].count,
    decreases i,
{
    if i == 0 {
        assert(blocks.take(1).first() == blocks[0]);
        assert(blocks.take(1).drop_first() =~= Seq::<crate::parser::DataBlockView>::empty());
        assert(blocks.take(0) =~= Seq::<crate::parser::DataBlockView>::empty());
    } else {
        assert(blocks.take(i + 1).first() == blocks[0]);
        assert(blocks.take(i + 1).drop_first() =~= blocks.drop_first().take(i));
        assert(blocks.take(i).first() == blocks[0]);
        assert(blocks.take(i).drop_first() =~= blocks.drop_first().take(i - 1));
        assert(blocks.drop_first()[i - 1] == blocks[i]);
        lemma_schema_size_take(blocks.drop_first(), i - 1);
    }
}

} // verus!
