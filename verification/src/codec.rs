use vstd::prelude::*;
use vstd::string::StringSliceAdditionalSpecFns;
use vstd::string::StrSliceExecFns;

verus! {

// The blob format of the compiled symbol table. It is private to this system
// but self-describing: a count byte, then for each entry a token-length byte,
// the token bytes, and the eight glyph rows. The encoder and decoder are
// matched, which the round-trip lemma below states and proves.

/// A single token together with its 5x8 glyph pattern, as the compiler
/// receives it.
pub struct SymbolEntry {
    pub token: Vec<u8>,
    pub glyph: [u8; 8],
}

impl SymbolEntry {
    /// The entry as a pair of byte strings.
    pub open spec fn model(&self) -> (Seq<u8>, Seq<u8>) {
        (self.token@, self.glyph@)
    }
}

/// The byte-string pairs of a list of entries.
pub open spec fn entries_model(v: Seq<SymbolEntry>) -> Seq<(Seq<u8>, Seq<u8>)> {
    v.map_values(|e: SymbolEntry| e.model())
}

/// Some token is longer than the length byte of the format can hold.
pub open spec fn has_long_token(s: Seq<(Seq<u8>, Seq<u8>)>) -> bool {
    exists|i: int| 0 <= i < s.len() && #[trigger] s[i].0.len() > 255
}

/// Two entries carry the same token.
pub open spec fn has_duplicate(s: Seq<(Seq<u8>, Seq<u8>)>) -> bool {
    exists|i: int, j: int| 0 <= i < j < s.len() && s[i].0 == s[j].0
}

/// Every glyph is exactly eight rows.
pub open spec fn glyphs_are_rows(s: Seq<(Seq<u8>, Seq<u8>)>) -> bool {
    forall|i: int| 0 <= i < s.len() ==> (#[trigger] s[i]).1.len() == 8
}

/// What the compiler accepts: at most 128 entries, tokens that fit the
/// length byte, unique tokens, and eight rows per glyph.
pub open spec fn valid_entries(s: Seq<(Seq<u8>, Seq<u8>)>) -> bool {
    &&& s.len() <= 128
    &&& !has_long_token(s)
    &&& !has_duplicate(s)
    &&& glyphs_are_rows(s)
}

/// One entry in the blob: length byte, token bytes, eight glyph rows.
pub open spec fn encode_entry(token: Seq<u8>, glyph: Seq<u8>) -> Seq<u8> {
    seq![token.len() as u8] + token + glyph
}

/// The entries of the blob, in order.
pub open spec fn encode_entries(s: Seq<(Seq<u8>, Seq<u8>)>) -> Seq<u8>
    decreases s.len(),
{
    if s.len() == 0 {
        Seq::empty()
    } else {
        encode_entry(s[0].0, s[0].1) + encode_entries(s.drop_first())
    }
}

/// The whole blob: a count byte, then the entries.
pub open spec fn encode_table(s: Seq<(Seq<u8>, Seq<u8>)>) -> Seq<u8> {
    seq![s.len() as u8] + encode_entries(s)
}

/// Reads `n` entries from `bytes`, which must be consumed exactly.
pub open spec fn decode_entries(bytes: Seq<u8>, n: nat) -> Option<Seq<(Seq<u8>, Seq<u8>)>>
    decreases n,
{
    if n == 0 {
        if bytes.len() == 0 {
            Some(Seq::empty())
        } else {
            None
        }
    } else if bytes.len() < 1 {
        None
    } else {
        let tlen = bytes[0] as int;
        if bytes.len() < 1 + tlen + 8 {
            None
        } else {
            let token = bytes.subrange(1, 1 + tlen);
            let glyph = bytes.subrange(1 + tlen, 1 + tlen + 8);
            match decode_entries(bytes.skip(1 + tlen + 8), (n - 1) as nat) {
                Some(rest) => Some(seq![(token, glyph)] + rest),
                None => None,
            }
        }
    }
}

/// Reads a whole blob back into its entry list; any malformed blob is
/// rejected as a whole.
pub open spec fn decode_table(bytes: Seq<u8>) -> Option<Seq<(Seq<u8>, Seq<u8>)>> {
    if bytes.len() < 1 {
        None
    } else if bytes[0] > 128 {
        None
    } else {
        decode_entries(bytes.skip(1), bytes[0] as nat)
    }
}

/// The mapping that a list of entries denotes; a repeated token keeps its
/// last glyph.
pub open spec fn table_of(s: Seq<(Seq<u8>, Seq<u8>)>) -> Map<Seq<u8>, Seq<u8>>
    decreases s.len(),
{
    if s.len() == 0 {
        Map::empty()
    } else {
        table_of(s.drop_last()).insert(s.last().0, s.last().1)
    }
}

proof fn lemma_encode_entries_snoc(s: Seq<(Seq<u8>, Seq<u8>)>, e: (Seq<u8>, Seq<u8>))
    ensures
        encode_entries(s.push(e)) == encode_entries(s) + encode_entry(e.0, e.1),
    decreases s.len(),
{
    if s.len() == 0 {
        assert(s.push(e).drop_first() =~= s);
        assert(encode_entries(s.push(e)) =~= encode_entries(s) + encode_entry(e.0, e.1));
    } else {
        assert(s.push(e).drop_first() =~= s.drop_first().push(e));
        lemma_encode_entries_snoc(s.drop_first(), e);
        assert(encode_entries(s.push(e)) =~= encode_entries(s) + encode_entry(e.0, e.1));
    }
}

proof fn lemma_decode_encode_entries(s: Seq<(Seq<u8>, Seq<u8>)>)
    requires
        !has_long_token(s),
        glyphs_are_rows(s),
    ensures
        decode_entries(encode_entries(s), s.len() as nat) == Some(s),
    decreases s.len(),
{
    if s.len() == 0 {
        assert(decode_entries(encode_entries(s), 0) =~= Some(s));
    } else {
        let e = s[0];
        let rest = s.drop_first();
        let bytes = encode_entries(s);
        assert(e.0.len() <= 255);
        assert(e.1.len() == 8);
        let tlen = e.0.len() as int;
        assert(bytes =~= encode_entry(e.0, e.1) + encode_entries(rest));
        assert(bytes[0] == tlen as u8);
        assert((tlen as u8) as int == tlen);
        assert(bytes.len() == 1 + tlen + 8 + encode_entries(rest).len());
        assert(bytes.subrange(1, 1 + tlen) =~= e.0);
        assert(bytes.subrange(1 + tlen, 1 + tlen + 8) =~= e.1);
        assert(bytes.skip(1 + tlen + 8) =~= encode_entries(rest));
        assert(!has_long_token(rest)) by {
            if has_long_token(rest) {
                let i = choose|i: int| 0 <= i < rest.len() && #[trigger] rest[i].0.len() > 255;
                assert(s[i + 1].0.len() > 255);
            }
        }
        assert(glyphs_are_rows(rest)) by {
            assert forall|i: int| 0 <= i < rest.len() implies (#[trigger] rest[i]).1.len()
                == 8 by {
                assert(rest[i] == s[i + 1]);
            }
        }
        lemma_decode_encode_entries(rest);
        assert(seq![(e.0, e.1)] + rest =~= s);
        assert(decode_entries(bytes, s.len() as nat) == Some(s));
    }
}

/// Law: a blob encoded from well-formed entries decodes back to exactly
/// those entries.
pub proof fn lemma_table_round_trip(s: Seq<(Seq<u8>, Seq<u8>)>)
    requires
        valid_entries(s),
    ensures
        decode_table(encode_table(s)) == Some(s),
{
    let bytes = encode_table(s);
    assert(bytes[0] == s.len() as u8);
    assert((s.len() as u8) as int == s.len() as int);
    assert(bytes.skip(1) =~= encode_entries(s));
    lemma_decode_encode_entries(s);
}

/// Law: in a duplicate-free entry list, the denoted mapping holds exactly
/// the listed tokens, each with its own glyph.
pub proof fn lemma_table_of_lookup(s: Seq<(Seq<u8>, Seq<u8>)>, token: Seq<u8>)
    requires
        !has_duplicate(s),
    ensures
        table_of(s).contains_key(token) <==> (exists|i: int|
            0 <= i < s.len() && (#[trigger] s[i]).0 == token),
        forall|i: int|
            0 <= i < s.len() && (#[trigger] s[i]).0 == token ==> table_of(s)[token] == s[i].1,
    decreases s.len(),
{
    if s.len() == 0 {
    } else {
        let front = s.drop_last();
        let last = s.last();
        assert(!has_duplicate(front)) by {
            if has_duplicate(front) {
                let (i, j) = choose|i: int, j: int|
                    0 <= i < j < front.len() && front[i].0 == front[j].0;
                assert(s[i].0 == s[j].0);
            }
        }
        lemma_table_of_lookup(front, token);
        if last.0 == token {
            assert(table_of(s).contains_key(token));
            assert(s[s.len() - 1].0 == token);
            assert forall|i: int|
                0 <= i < s.len() && (#[trigger] s[i]).0 == token implies table_of(s)[token]
                == s[i].1 by {
                if i < s.len() - 1 {
                    assert(s[i].0 == s[s.len() - 1].0);
                    assert(false);
                }
            }
        } else {
            assert forall|i: int|
                0 <= i < s.len() && (#[trigger] s[i]).0 == token implies table_of(s)[token]
                == s[i].1 by {
                assert(i < s.len() - 1);
                assert(front[i] == s[i]);
            }
            assert((exists|i: int| 0 <= i < s.len() && (#[trigger] s[i]).0 == token) <==> (
            exists|i: int| 0 <= i < front.len() && (#[trigger] front[i]).0 == token)) by {
                if exists|i: int| 0 <= i < s.len() && (#[trigger] s[i]).0 == token {
                    let i = choose|i: int| 0 <= i < s.len() && (#[trigger] s[i]).0 == token;
                    assert(i < s.len() - 1);
                    assert(front[i].0 == token);
                }
                if exists|i: int| 0 <= i < front.len() && (#[trigger] front[i]).0 == token {
                    let i = choose|i: int|
                        0 <= i < front.len() && (#[trigger] front[i]).0 == token;
                    assert(s[i].0 == token);
                }
            }
        }
    }
}

/// The mapping of an entry list never holds more keys than entries.
pub proof fn lemma_table_of_dom(s: Seq<(Seq<u8>, Seq<u8>)>)
    ensures
        table_of(s).dom().finite(),
        table_of(s).dom().len() <= s.len(),
    decreases s.len(),
{
    if s.len() == 0 {
    } else {
        lemma_table_of_dom(s.drop_last());
    }
}

/// Why the compiler rejected its input.
#[derive(Clone, Copy, PartialEq, Eq, Structural, Debug)]
pub enum CompileError {
    TooManyEntries,
    TokenTooLong,
    DuplicateToken,
}

/// Compares two byte strings by contents.
fn bytes_eq(a: &Vec<u8>, b: &Vec<u8>) -> (r: bool)
    ensures
        r == (a@ == b@),
{
    if a.len() != b.len() {
        return false;
    }
    let mut i: usize = 0;
    while i < a.len()
        invariant
            i <= a.len(),
            a@.len() == b@.len(),
            forall|k: int| 0 <= k < i ==> a@[k] == b@[k],
        decreases a@.len() - i,
    {
        if a[i] != b[i] {
            return false;
        }
        i += 1;
    }
    proof {
        assert(a@ =~= b@);
    }
    true
}

/// Compiles the token map into the blob later embedded in the firmware
/// image. Any input the format cannot hold losslessly is rejected whole.
pub fn compile(entries: &Vec<SymbolEntry>) -> (r: Result<Vec<u8>, CompileError>)
    ensures
        r is Ok <==> valid_entries(entries_model(entries@)),
        r matches Ok(blob) ==> blob@ == encode_table(entries_model(entries@)),
        (r matches Err(e) && e == CompileError::TooManyEntries) <==> entries@.len() > 128,
        (r matches Err(e) && e == CompileError::TokenTooLong) <==> entries@.len() <= 128
            && has_long_token(entries_model(entries@)),
        (r matches Err(e) && e == CompileError::DuplicateToken) <==> entries@.len() <= 128
            && !has_long_token(entries_model(entries@)) && has_duplicate(
            entries_model(entries@),
        ),
{
    let ghost m = entries_model(entries@);
    let n = entries.len();
    proof {
        assert(m.len() == entries@.len());
    }
    if n > 128 {
        return Err(CompileError::TooManyEntries);
    }
    let mut i: usize = 0;
    while i < n
        invariant
            n == entries@.len(),
            n <= 128,
            i <= n,
            m == entries_model(entries@),
            forall|k: int| 0 <= k < i ==> #[trigger] entries@[k].token@.len() <= 255,
        decreases n - i,
    {
        if entries[i].token.len() > 255 {
            proof {
                assert(m[i as int].0.len() > 255);
            }
            return Err(CompileError::TokenTooLong);
        }
        i += 1;
    }
    proof {
        assert(!has_long_token(m)) by {
            if has_long_token(m) {
                let k = choose|k: int| 0 <= k < m.len() && #[trigger] m[k].0.len() > 255;
                assert(entries@[k].token@.len() > 255);
            }
        }
    }
    let mut i: usize = 0;
    while i < n
        invariant
            n == entries@.len(),
            n <= 128,
            i <= n,
            m == entries_model(entries@),
            !has_long_token(m),
            forall|a: int, b: int|
                0 <= a < b < i ==> (#[trigger] entries@[a].token@) != (
                #[trigger] entries@[b].token@),
        decreases n - i,
    {
        let mut j: usize = 0;
        while j < i
            invariant
                n == entries@.len(),
                n <= 128,
                j <= i,
                i < n,
                m == entries_model(entries@),
                !has_long_token(m),
                forall|a: int, b: int|
                    0 <= a < b < i ==> (#[trigger] entries@[a].token@) != (
                    #[trigger] entries@[b].token@),
                forall|a: int|
                    0 <= a < j ==> (#[trigger] entries@[a].token@) != entries@[i as int].token@,
            decreases i - j,
        {
            if bytes_eq(&entries[j].token, &entries[i].token) {
                proof {
                    assert(m[j as int].0 == m[i as int].0);
                }
                return Err(CompileError::DuplicateToken);
            }
            j += 1;
        }
        i += 1;
    }
    proof {
        assert(!has_duplicate(m)) by {
            if has_duplicate(m) {
                let (a, b) = choose|a: int, b: int| 0 <= a < b < m.len() && m[a].0 == m[b].0;
                assert(entries@[a].token@ == entries@[b].token@);
            }
        }
        assert(glyphs_are_rows(m)) by {
            assert forall|k: int| 0 <= k < m.len() implies (#[trigger] m[k]).1.len() == 8 by {
                assert(m[k].1 == entries@[k].glyph@);
            }
        }
    }
    let mut out: Vec<u8> = Vec::new();
    out.push(n as u8);
    let mut i: usize = 0;
    while i < n
        invariant
            n == entries@.len(),
            n <= 128,
            i <= n,
            m == entries_model(entries@),
            forall|k: int| 0 <= k < n ==> #[trigger] entries@[k].token@.len() <= 255,
            out@ == seq![(n as u8)] + encode_entries(m.take(i as int)),
        decreases n - i,
    {
        let tlen = entries[i].token.len();
        out.push(tlen as u8);
        let ghost out0 = out@;
        let mut j: usize = 0;
        while j < tlen
            invariant
                n == entries@.len(),
                i < n,
                j <= tlen,
                tlen == entries@[i as int].token@.len(),
                out@ == out0 + entries@[i as int].token@.take(j as int),
            decreases tlen - j,
        {
            let b = entries[i].token[j];
            out.push(b);
            proof {
                assert(entries@[i as int].token@.take(j + 1) =~= entries@[
                    i as int
                ].token@.take(j as int).push(b));
                assert(out0 + entries@[i as int].token@.take(j + 1) =~= (out0 + entries@[
                    i as int
                ].token@.take(j as int)).push(b));
            }
            j += 1;
        }
        proof {
            assert(entries@[i as int].token@.take(tlen as int) =~= entries@[i as int].token@);
        }
        let ghost out1 = out@;
        let mut j: usize = 0;
        while j < 8
            invariant
                n == entries@.len(),
                i < n,
                j <= 8,
                out@ == out1 + entries@[i as int].glyph@.take(j as int),
            decreases 8 - j,
        {
            let b = entries[i].glyph[j];
            out.push(b);
            proof {
                assert(entries@[i as int].glyph@.take(j + 1) =~= entries@[
                    i as int
                ].glyph@.take(j as int).push(b));
                assert(out1 + entries@[i as int].glyph@.take(j + 1) =~= (out1 + entries@[
                    i as int
                ].glyph@.take(j as int)).push(b));
            }
            j += 1;
        }
        proof {
            assert(entries@[i as int].glyph@.take(8) =~= entries@[i as int].glyph@);
            lemma_encode_entries_snoc(m.take(i as int), m[i as int]);
            assert(m.take(i as int).push(m[i as int]) =~= m.take(i as int + 1));
            assert(out@ =~= seq![(n as u8)] + encode_entries(m.take(i as int)) + encode_entry(
                m[i as int].0,
                m[i as int].1,
            ));
            assert(out@ =~= seq![(n as u8)] + encode_entries(m.take(i as int + 1)));
        }
        i += 1;
    }
    proof {
        assert(m.take(n as int) =~= m);
        assert(out@ =~= encode_table(m));
    }
    Ok(out)
}

/// Law: compiling any valid token map and loading it back yields a table
/// where every input token is mapped to exactly its original glyph rows, and
/// any other token is absent.
pub proof fn lemma_compile_load_round_trip(s: Seq<(Seq<u8>, Seq<u8>)>, token: Seq<u8>)
    requires
        valid_entries(s),
    ensures
        decode_table(encode_table(s)) == Some(s),
        table_of(s).contains_key(token) <==> (exists|i: int|
            0 <= i < s.len() && (#[trigger] s[i]).0 == token),
        forall|i: int|
            0 <= i < s.len() && (#[trigger] s[i]).0 == token ==> table_of(s)[token] == s[i].1,
{
    lemma_table_round_trip(s);
    lemma_table_of_lookup(s, token);
}

/// What the symbol file's JSON text denotes: the token-to-rows map in key
/// order, or nothing when the text is not such an object. Only named here;
/// the parse depends on the text alone.
pub uninterp spec fn json_symbols(text: Seq<char>) -> Option<Seq<(Seq<char>, Seq<u8>)>>;

/// Relies on serde_json::from_str: parses a JSON object of token names to
/// arrays of eight byte-sized integers, rejecting any other shape, and hands
/// the entries on in key order with each key occurring once.
#[verifier::external_body]
fn parse_symbol_json(text: &str) -> (r: Option<Vec<(String, [u8; 8])>>)
    ensures
        r is Some <==> json_symbols(text@) is Some,
        r matches Some(v) ==> v@.map_values(|p: (String, [u8; 8])| (p.0@, p.1@)) == json_symbols(
            text@,
        ).unwrap(),
{
    match serde_json::from_str::<std::collections::BTreeMap<String, [u8; 8]>>(text) {
        Ok(m) => Some(m.into_iter().collect()),
        Err(_) => None,
    }
}

/// The entries with each token taken down to its encoded bytes, as the blob
/// stores them.
pub open spec fn byte_entries(entries: Seq<(Seq<char>, Seq<u8>)>) -> Seq<(Seq<u8>, Seq<u8>)> {
    entries.map_values(|p: (Seq<char>, Seq<u8>)| (vstd::utf8::encode_utf8(p.0), p.1))
}

/// The whole build step: parse the symbol file's JSON text, then compile the
/// table into the blob. It fails on malformed JSON exactly as on any parsed
/// input the format cannot hold.
pub fn compile_symbol_json(text: &str) -> (r: Option<Vec<u8>>)
    ensures
        r is Some <==> (json_symbols(text@) is Some && valid_entries(
            byte_entries(json_symbols(text@).unwrap()),
        )),
        r matches Some(blob) ==> blob@ == encode_table(byte_entries(json_symbols(text@).unwrap())),
{
    match parse_symbol_json(text) {
        None => None,
        Some(v) => {
            let ghost parsed = json_symbols(text@).unwrap();
            let mut entries: Vec<SymbolEntry> = Vec::new();
            let mut i: usize = 0;
            while i < v.len()
                invariant
                    i <= v@.len(),
                    entries@.len() == i,
                    v@.map_values(|p: (String, [u8; 8])| (p.0@, p.1@)) == parsed,
                    entries_model(entries@) =~= byte_entries(parsed).take(i as int),
                decreases v@.len() - i,
            {
                let token_str = v[i].0.as_str();
                let token = token_str.as_bytes_vec();
                let glyph = v[i].1;
                proof {
                    assert(token_str@ == v@[i as int].0@);
                    assert(token@ == token_str.spec_bytes());
                    assert(token@ == vstd::utf8::encode_utf8(v@[i as int].0@));
                }
                entries.push(SymbolEntry { token, glyph });
                proof {
                    let e = entries@[i as int];
                    assert(parsed[i as int] == (v@[i as int].0@, v@[i as int].1@));
                    assert(e.token@ == vstd::utf8::encode_utf8(v@[i as int].0@));
                    assert(byte_entries(parsed)[i as int] == (
                        vstd::utf8::encode_utf8(parsed[i as int].0),
                        parsed[i as int].1,
                    ));
                    assert(entries_model(entries@)[i as int] == (e.token@, e.glyph@));
                    assert(entries_model(entries@) =~= byte_entries(parsed).take(i + 1));
                }
                i += 1;
            }
            proof {
                assert(byte_entries(parsed).take(v@.len() as int) =~= byte_entries(parsed));
            }
            match compile(&entries) {
                Ok(blob) => Some(blob),
                Err(_) => None,
            }
        },
    }
}

} // verus!
