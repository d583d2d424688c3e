use vstd::prelude::*;
use vstd::slice::{slice_subrange, slice_to_vec};
use vstd::string::StringSliceAdditionalSpecFns;

use crate::codec::{decode_entries, decode_table, lemma_table_of_dom, table_of};

verus! {

/// The runtime symbol table: a fixed-capacity insertion-ordered map from
/// token bytes to 8-byte glyph patterns, held in a heapless index map so that
/// no allocation happens after start-up and the capacity bound of 128 entries
/// is enforced by the container itself. The container is opaque to the
/// verifier; the methods that touch it are trusted wrappers around heapless
/// calls, and everything else is proved against their contracts.
#[verifier::external_body]
pub struct CharBitMap {
    map: heapless::index_map::FnvIndexMap<Vec<u8>, [u8; 8], 128>,
}

/// What the table holds: each token's byte string mapped to its glyph.
pub uninterp spec fn symbol_map_entries(m: CharBitMap) -> Map<Seq<u8>, [u8; 8]>;

/// The contents of a table with nothing in it.
pub open spec fn no_entries() -> Map<Seq<u8>, [u8; 8]> {
    Map::empty()
}

impl CharBitMap {
    /// The table as a mathematical map from token bytes to glyph patterns.
    pub open spec fn entries(&self) -> Map<Seq<u8>, [u8; 8]> {
        symbol_map_entries(*self)
    }

    /// Relies on heapless::index_map::IndexMap::new: creates an empty map.
    #[verifier::external_body]
    fn new_empty() -> (r: CharBitMap)
        ensures
            symbol_map_entries(r) == no_entries(),
    {
        CharBitMap { map: heapless::index_map::FnvIndexMap::new() }
    }

    /// Relies on heapless::index_map::IndexMap::get: looks a key up by
    /// equality on the borrowed byte slice and returns a reference to its
    /// value, or None when no entry has that key.
    #[verifier::external_body]
    fn lookup(&self, key: &[u8]) -> (r: Option<&[u8; 8]>)
        ensures
            match r {
                Some(g) => symbol_map_entries(*self).contains_key(key@) && *g
                    == symbol_map_entries(*self)[key@],
                None => !symbol_map_entries(*self).contains_key(key@),
            },
    {
        self.map.get(key)
    }

    /// Relies on heapless::index_map::IndexMap::insert: updates the value in
    /// place when the key is present, appends a new entry while fewer than
    /// 128 distinct keys are held, and otherwise hands the pair back
    /// untouched as the error value.
    #[verifier::external_body]
    fn insert_entry(&mut self, key: Vec<u8>, glyph: [u8; 8]) -> (r: Result<
        Option<[u8; 8]>,
        (Vec<u8>, [u8; 8]),
    >)
        ensures
            symbol_map_entries(*old(self)).contains_key(key@) || symbol_map_entries(
                *old(self),
            ).dom().len() < 128 ==> r is Ok,
            r is Ok ==> symbol_map_entries(*final(self)) == symbol_map_entries(
                *old(self),
            ).insert(key@, glyph),
            r is Err ==> *final(self) == *old(self) && !symbol_map_entries(
                *old(self),
            ).contains_key(key@) && symbol_map_entries(*old(self)).dom().len() >= 128,
    {
        self.map.insert(key, glyph)
    }

    /// A loaded table never holds more than its 128-entry capacity.
    pub open spec fn wf(&self) -> bool {
        self.entries().dom().finite() && self.entries().dom().len() <= 128
    }

    /// Looks a token up; absence is an expected outcome, not an error.
    pub fn get(&self, key: &str) -> (r: Option<&[u8; 8]>)
        ensures
            match r {
                Some(g) => self.entries().contains_key(key.spec_bytes()) && *g
                    == self.entries()[key.spec_bytes()],
                None => !self.entries().contains_key(key.spec_bytes()),
            },
    {
        self.lookup(key.as_bytes())
    }
}

/// The loaded table holds the mapping a blob denotes: the same tokens, and
/// row-for-row the same glyph bytes.
pub open spec fn table_matches(m: Map<Seq<u8>, [u8; 8]>, s: Map<Seq<u8>, Seq<u8>>) -> bool {
    m.dom() =~= s.dom() && (forall|k: Seq<u8>|
        s.contains_key(k) ==> (#[trigger] m[k])@ == s[k])
}

/// Deserializes the embedded blob into the runtime table. A malformed blob
/// yields no table at all; the caller aborts in that case, since a partially
/// loaded table would render undefined glyphs.
pub fn load_table(blob: &[u8]) -> (r: Option<CharBitMap>)
    ensures
        r is Some <==> decode_table(blob@) is Some,
        r matches Some(t) ==> t.wf() && table_matches(
            t.entries(),
            table_of(decode_table(blob@).unwrap()),
        ),
{
    if blob.len() < 1 {
        return None;
    }
    let n = blob[0] as usize;
    if n > 128 {
        return None;
    }
    let mut table = CharBitMap::new_empty();
    let ghost mut decoded: Seq<(Seq<u8>, Seq<u8>)> = Seq::empty();
    let mut pos: usize = 1;
    let mut k: usize = 0;
    proof {
        if decode_entries(blob@.skip(1), n as nat) is Some {
            assert(decoded + decode_entries(blob@.skip(1), n as nat).unwrap() =~= decode_entries(
                blob@.skip(1),
                n as nat,
            ).unwrap());
        }
    }
    while k < n
        invariant
            n <= 128,
            n == blob@[0] as int,
            blob@.len() >= 1,
            k <= n,
            1 <= pos <= blob@.len(),
            decoded.len() == k,
            table.entries().dom().finite(),
            table_matches(table.entries(), table_of(decoded)),
            decode_entries(blob@.skip(1), n as nat) is Some <==> decode_entries(
                blob@.skip(pos as int),
                (n - k) as nat,
            ) is Some,
            decode_entries(blob@.skip(pos as int), (n - k) as nat) is Some ==> decode_entries(
                blob@.skip(1),
                n as nat,
            ).unwrap() == decoded + decode_entries(
                blob@.skip(pos as int),
                (n - k) as nat,
            ).unwrap(),
        decreases n - k,
    {
        let ghost rem = blob@.skip(pos as int);
        if pos >= blob.len() {
            proof {
                assert(rem.len() == 0);
                assert(decode_entries(rem, (n - k) as nat) is None);
            }
            return None;
        }
        let tlen = blob[pos] as usize;
        proof {
            assert(rem[0] == blob@[pos as int]);
        }
        if blob.len() - pos < 1 + tlen + 8 {
            proof {
                assert(rem.len() < 1 + tlen + 8);
                assert(decode_entries(rem, (n - k) as nat) is None);
            }
            return None;
        }
        let token_slice = slice_subrange(blob, pos + 1, pos + 1 + tlen);
        let token = slice_to_vec(token_slice);
        let g0 = pos + 1 + tlen;
        let glyph: [u8; 8] = [
            blob[g0],
            blob[g0 + 1],
            blob[g0 + 2],
            blob[g0 + 3],
            blob[g0 + 4],
            blob[g0 + 5],
            blob[g0 + 6],
            blob[g0 + 7],
        ];
        let ghost entry = (
            rem.subrange(1, 1 + tlen as int),
            rem.subrange(1 + tlen as int, 1 + tlen as int + 8),
        );
        proof {
            assert(token@ =~= entry.0);
            assert(glyph@ =~= entry.1);
            lemma_table_of_dom(decoded);
            assert(table.entries().dom() == table_of(decoded).dom());
        }
        let ghost oldmap = table.entries();
        let res = table.insert_entry(token, glyph);
        match res {
            Ok(_) => {},
            Err(_) => {
                proof {
                    assert(false);
                }
                return None;
            },
        }
        proof {
            let newdec = decoded.push(entry);
            assert(newdec.drop_last() =~= decoded);
            assert(newdec.last() == entry);
            assert(table_of(newdec) == table_of(decoded).insert(entry.0, entry.1));
            assert(table.entries() == oldmap.insert(entry.0, glyph));
            assert forall|key: Seq<u8>| table_of(newdec).contains_key(key) implies (
            #[trigger] table.entries()[key])@ == table_of(newdec)[key] by {
                if key == entry.0 {
                } else {
                    assert(table_of(decoded).contains_key(key));
                }
            }
            assert(table.entries().dom() =~= table_of(newdec).dom());
            // one entry was taken off the front of the remaining bytes
            assert(rem.skip(1 + tlen as int + 8) =~= blob@.skip(
                pos as int + 1 + tlen as int + 8,
            ));
            assert(decode_entries(rem, (n - k) as nat) is Some ==> decode_entries(
                rem,
                (n - k) as nat,
            ).unwrap() == seq![entry] + decode_entries(
                rem.skip(1 + tlen as int + 8),
                (n - k - 1) as nat,
            ).unwrap());
            if decode_entries(blob@.skip(1), n as nat) is Some {
                assert(decoded + (seq![entry] + decode_entries(
                    rem.skip(1 + tlen as int + 8),
                    (n - k - 1) as nat,
                ).unwrap()) =~= newdec + decode_entries(
                    rem.skip(1 + tlen as int + 8),
                    (n - k - 1) as nat,
                ).unwrap());
            }
            decoded = newdec;
        }
        pos = pos + 1 + tlen + 8;
        k += 1;
    }
    if pos != blob.len() {
        proof {
            assert(blob@.skip(pos as int).len() >= 1);
            assert(decode_entries(blob@.skip(pos as int), 0) is None);
        }
        return None;
    }
    proof {
        assert(blob@.skip(pos as int).len() == 0);
        assert(decode_entries(blob@.skip(pos as int), 0) is Some);
        assert(decoded + decode_entries(blob@.skip(pos as int), 0).unwrap() =~= decoded);
        assert(decode_table(blob@) is Some);
        assert(decode_table(blob@).unwrap() == decoded);
        lemma_table_of_dom(decoded);
        assert(table.entries().dom() == table_of(decoded).dom());
    }
    Some(table)
}

} // verus!
