//! The Alfalfa record: a container version and an ordered dictionary from
//! ASCII byte-string keys to byte-vector values.

use vstd::prelude::*;

verus! {

use vstd::string::StringSliceAdditionalSpecFns;

/// Well-known Alfalfa keys, plus custom ones.
#[derive(Clone, Copy, Debug, PartialEq, Eq)]
pub enum AlfalfaDataKey {
    Erase,
    Cape,
    Wings,
    Custom(&'static str),
}

impl AlfalfaDataKey {
    /// The key's name as bytes.
    pub open spec fn bytes_spec(self) -> Seq<u8> {
        match self {
            AlfalfaDataKey::Erase => seq![101u8, 114u8, 97u8, 115u8, 101u8],
            AlfalfaDataKey::Cape => seq![99u8, 97u8, 112u8, 101u8],
            AlfalfaDataKey::Wings => seq![119u8, 105u8, 110u8, 103u8],
            AlfalfaDataKey::Custom(s) => s.spec_bytes(),
        }
    }

    pub fn to_bytes(&self) -> (r: Vec<u8>)
        ensures
            r@ == self.bytes_spec(),
    {
        match self {
            AlfalfaDataKey::Erase => {
                let v: Vec<u8> = vec![101u8, 114u8, 97u8, 115u8, 101u8];
                proof {
                    assert(v@ =~= self.bytes_spec());
                }
                v
            },
            AlfalfaDataKey::Cape => {
                let v: Vec<u8> = vec![99u8, 97u8, 112u8, 101u8];
                proof {
                    assert(v@ =~= self.bytes_spec());
                }
                v
            },
            AlfalfaDataKey::Wings => {
                let v: Vec<u8> = vec![119u8, 105u8, 110u8, 103u8];
                proof {
                    assert(v@ =~= self.bytes_spec());
                }
                v
            },
            AlfalfaDataKey::Custom(s) => vstd::slice::slice_to_vec(s.as_bytes()),
        }
    }
}

/// Folds an entry list into a key -> value map; a later entry for the same
/// key wins.
pub open spec fn entries_map(es: Seq<(Seq<u8>, Seq<u8>)>) -> Map<Seq<u8>, Seq<u8>>
    decreases es.len(),
{
    if es.len() == 0 {
        Map::empty()
    } else {
        entries_map(es.drop_last()).insert(es.last().0, es.last().1)
    }
}

/// No key occurs twice.
pub open spec fn keys_unique(es: Seq<(Seq<u8>, Seq<u8>)>) -> bool {
    forall|i: int, j: int| 0 <= i < j < es.len() ==> (#[trigger] es[i]).0 != (#[trigger] es[j]).0
}

pub proof fn lemma_entries_map_lookup(es: Seq<(Seq<u8>, Seq<u8>)>, i: int)
    requires
        keys_unique(es),
        0 <= i < es.len(),
    ensures
        entries_map(es).contains_key(es[i].0),
        entries_map(es)[es[i].0] == es[i].1,
    decreases es.len(),
{
    if i + 1 < es.len() {
        assert(es.drop_last()[i] == es[i]);
        lemma_entries_map_lookup(es.drop_last(), i);
        assert(es[i].0 != es.last().0);
    }
}

pub proof fn lemma_entries_map_dom(es: Seq<(Seq<u8>, Seq<u8>)>, k: Seq<u8>)
    requires
        entries_map(es).contains_key(k),
    ensures
        exists|i: int| 0 <= i < es.len() && (#[trigger] es[i]).0 == k,
    decreases es.len(),
{
    if es.len() > 0 {
        if es.last().0 == k {
            assert(es[es.len() - 1].0 == k);
        } else {
            lemma_entries_map_dom(es.drop_last(), k);
            let i = choose|i: int| 0 <= i < es.drop_last().len() && (#[trigger] es.drop_last()[i]).0
                == k;
            assert(es[i].0 == k);
        }
    }
}

/// A decoded Alfalfa record. Version 0 means "absent / do not write";
/// version 1 is the only payload version the codec recognises. Entries keep
/// their insertion order, which fixes the byte stream the encoder emits.
#[derive(Clone, Debug, PartialEq, Eq)]
pub struct AlfalfaData {
    version: u8,
    data: Vec<(Vec<u8>, Vec<u8>)>,
}

impl AlfalfaData {
    /// The ordered entry list, as byte sequences.
    pub closed spec fn entries(self) -> Seq<(Seq<u8>, Seq<u8>)> {
        self.data@.map(|i: int, e: (Vec<u8>, Vec<u8>)| (e.0@, e.1@))
    }

    /// The dictionary the record denotes.
    pub open spec fn map_view(self) -> Map<Seq<u8>, Seq<u8>> {
        entries_map(self.entries())
    }

    pub closed spec fn version_spec(self) -> u8 {
        self.version
    }

    pub open spec fn wf(self) -> bool {
        keys_unique(self.entries())
    }

    /// An empty record with payload version 1.
    pub fn new() -> (r: AlfalfaData)
        ensures
            r.wf(),
            r.version_spec() == 1,
            r.entries() =~= Seq::<(Seq<u8>, Seq<u8>)>::empty(),
    {
        let r = AlfalfaData { version: 1, data: Vec::new() };
        proof {
            assert(r.entries() =~= Seq::<(Seq<u8>, Seq<u8>)>::empty());
        }
        r
    }

    /// An empty record with the given version byte.
    pub fn with_version(version: u8) -> (r: AlfalfaData)
        ensures
            r.wf(),
            r.version_spec() == version,
            r.entries() =~= Seq::<(Seq<u8>, Seq<u8>)>::empty(),
    {
        let r = AlfalfaData { version, data: Vec::new() };
        proof {
            assert(r.entries() =~= Seq::<(Seq<u8>, Seq<u8>)>::empty());
        }
        r
    }

    pub fn version(&self) -> (r: u8)
        ensures
            r == self.version_spec(),
    {
        self.version
    }

    pub fn is_empty(&self) -> (r: bool)
        ensures
            r == (self.entries().len() == 0),
    {
        self.data.len() == 0
    }

    pub fn entry_count(&self) -> (r: usize)
        ensures
            r == self.entries().len(),
    {
        self.data.len()
    }

    pub fn entry_at(&self, i: usize) -> (r: &(Vec<u8>, Vec<u8>))
        requires
            i < self.entries().len(),
        ensures
            r.0@ == self.entries()[i as int].0,
            r.1@ == self.entries()[i as int].1,
    {
        &self.data[i]
    }

    /// Looks a key up by its bytes.
    pub fn get_data_internal(&self, key: &[u8]) -> (r: Option<&Vec<u8>>)
        requires
            self.wf(),
        ensures
            self.map_view().contains_key(key@) ==> {
                &&& r matches Some(v)
                &&& v@ == self.map_view()[key@]
            },
            !self.map_view().contains_key(key@) ==> r is None,
    {
        let n: usize = self.data.len();
        let mut i: usize = 0;
        while i < n
            invariant
                self.wf(),
                n == self.data@.len(),
                i <= n,
                forall|j: int| 0 <= j < i ==> (#[trigger] self.entries()[j]).0 != key@,
            decreases n - i,
        {
            if bytes_eq(&self.data[i].0, key) {
                proof {
                    lemma_entries_map_lookup(self.entries(), i as int);
                }
                return Some(&self.data[i].1);
            }
            i = i + 1;
        }
        proof {
            if self.map_view().contains_key(key@) {
                lemma_entries_map_dom(self.entries(), key@);
            }
        }
        None
    }

    pub fn get_data(&self, key: AlfalfaDataKey) -> (r: Option<&Vec<u8>>)
        requires
            self.wf(),
        ensures
            self.map_view().contains_key(key.bytes_spec()) ==> {
                &&& r matches Some(v)
                &&& v@ == self.map_view()[key.bytes_spec()]
            },
            !self.map_view().contains_key(key.bytes_spec()) ==> r is None,
    {
        let kb: Vec<u8> = key.to_bytes();
        self.get_data_internal(kb.as_slice())
    }

    /// Inserts or replaces the value under a key given by its bytes. A new
    /// key is appended at the end; an existing key keeps its position.
    pub fn set_data_internal(&mut self, key: Vec<u8>, value: Vec<u8>)
        requires
            old(self).wf(),
        ensures
            final(self).wf(),
            final(self).version_spec() == old(self).version_spec(),
            final(self).map_view() == old(self).map_view().insert(key@, value@),
            (exists|i: int|
                0 <= i < old(self).entries().len() && (#[trigger] old(self).entries()[i]).0
                    == key@) ==> (exists|i: int|
                {
                    &&& 0 <= i < old(self).entries().len()
                    &&& (#[trigger] old(self).entries()[i]).0 == key@
                    &&& final(self).entries() =~= old(self).entries().update(i, (key@, value@))
                }),
            (forall|i: int|
                0 <= i < old(self).entries().len() ==> (#[trigger] old(self).entries()[i]).0
                    != key@) ==> final(self).entries() =~= old(self).entries().push(
                (key@, value@),
            ),
    {
        let n: usize = self.data.len();
        let mut i: usize = 0;
        while i < n
            invariant
                self.wf(),
                *self == *old(self),
                n == self.data@.len(),
                i <= n,
                forall|j: int| 0 <= j < i ==> (#[trigger] self.entries()[j]).0 != key@,
            decreases n - i,
        {
            if bytes_eq(&self.data[i].0, key.as_slice()) {
                self.data.set(i, (key, value));
                proof {
                    let es0 = old(self).entries();
                    let es1 = self.entries();
                    assert(es1 =~= es0.update(i as int, (key@, value@)));
                    lemma_entries_map_update(es0, i as int, key@, value@);
                    let ii = i as int;
                    assert((es0[ii]).0 == key@);
                    assert(0 <= ii < es0.len() && (#[trigger] es0[ii]).0 == key@ && es1
                        =~= es0.update(ii, (key@, value@)));
                }
                return ;
            }
            i = i + 1;
        }
        self.data.push((key, value));
        proof {
            let es0 = old(self).entries();
            let es1 = self.entries();
            assert(es1 =~= es0.push((key@, value@)));
            assert(es1.drop_last() =~= es0);
        }
    }

    pub fn set_data(&mut self, key: AlfalfaDataKey, value: Vec<u8>)
        requires
            old(self).wf(),
        ensures
            final(self).wf(),
            final(self).version_spec() == old(self).version_spec(),
            final(self).map_view() == old(self).map_view().insert(key.bytes_spec(), value@),
    {
        let kb: Vec<u8> = key.to_bytes();
        self.set_data_internal(kb, value);
    }
}

/// Replacing the entry at a position of its own key leaves the map equal to
/// a plain insert.
proof fn lemma_entries_map_update(es: Seq<(Seq<u8>, Seq<u8>)>, i: int, k: Seq<u8>, v: Seq<u8>)
    requires
        keys_unique(es),
        0 <= i < es.len(),
        es[i].0 == k,
    ensures
        keys_unique(es.update(i, (k, v))),
        entries_map(es.update(i, (k, v))) == entries_map(es).insert(k, v),
    decreases es.len(),
{
    let es2 = es.update(i, (k, v));
    assert forall|a: int, b: int| 0 <= a < b < es2.len() implies (#[trigger] es2[a]).0 != (
    #[trigger] es2[b]).0 by {
        assert(es2[a].0 == es[a].0 && es2[b].0 == es[b].0);
    }
    if i == es.len() - 1 {
        assert(es2.drop_last() =~= es.drop_last());
        assert(entries_map(es2) =~= entries_map(es).insert(k, v));
    } else {
        assert(es2.drop_last() =~= es.drop_last().update(i, (k, v)));
        assert(es.drop_last()[i] == es[i]);
        lemma_entries_map_update(es.drop_last(), i, k, v);
        assert(es2.last() == es.last());
        assert(es.last().0 != k);
        assert(entries_map(es2) =~= entries_map(es).insert(k, v)) by {
            assert(entries_map(es2) == entries_map(es2.drop_last()).insert(
                es.last().0,
                es.last().1,
            ));
            assert(entries_map(es2.drop_last()) == entries_map(es.drop_last()).insert(k, v));
        }
    }
}

/// Byte-slice equality, stated over the views.
pub fn bytes_eq(a: &[u8], b: &[u8]) -> (r: bool)
    ensures
        r == (a@ == b@),
{
    if a.len() != b.len() {
        proof {
            assert(a@.len() != b@.len());
        }
        return false;
    }
    let n: usize = a.len();
    let mut i: usize = 0;
    while i < n
        invariant
            n == a@.len(),
            n == b@.len(),
            i <= n,
            forall|j: int| 0 <= j < i ==> a@[j] == b@[j],
        decreases n - i,
    {
        if a[i] != b[i] {
            return false;
        }
        i = i + 1;
    }
    proof {
        assert(a@ =~= b@);
    }
    true
}

} // verus!
