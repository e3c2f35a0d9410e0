//! A case-insensitive header map with RFC-token validation and
//! comma-merging of repeated names.
//!
//! Names are normalized to lowercase when stored; looking a name up folds
//! it the same way, so `Host` and `HOST` reach the same entry. Setting a
//! name that is already present appends the new value to the old one,
//! joined by a comma.

use vstd::prelude::*;
use vstd::slice::{slice_subrange, slice_to_vec};

use crate::error::HTTPParsingError;
use crate::scan::{
    bytes_eq, check_token, find_byte, find_byte_from, find_crlf, find_crlf_from, is_tchar,
    is_token, is_ws, lemma_find_byte_char, lemma_find_crlf_char, lower, lower_byte, to_lower,
    trim, trim_bytes, utf8_check,
};

verus! {

/// The header map: a list of (lowercase name, value) entries with
/// pairwise-distinct names.
pub struct Headers {
    pub headers: Vec<(Vec<u8>, Vec<u8>)>,
}

impl View for Headers {
    type V = Seq<(Seq<u8>, Seq<u8>)>;

    open spec fn view(&self) -> Seq<(Seq<u8>, Seq<u8>)> {
        Seq::new(self.headers@.len(), |i: int| (self.headers@[i].0@, self.headers@[i].1@))
    }
}

/// Index of the first entry named `k`, if any.
pub open spec fn spec_find(s: Seq<(Seq<u8>, Seq<u8>)>, k: Seq<u8>) -> Option<int>
    decreases s.len(),
{
    if s.len() == 0 {
        None
    } else if s[0].0 == k {
        Some(0int)
    } else {
        match spec_find(s.skip(1), k) {
            None => None,
            Some(i) => Some(i + 1),
        }
    }
}

/// The value stored under the exact name `k`, if any.
pub open spec fn spec_lookup(s: Seq<(Seq<u8>, Seq<u8>)>, k: Seq<u8>) -> Option<Seq<u8>> {
    match spec_find(s, k) {
        None => None,
        Some(i) => Some(s[i].1),
    }
}

/// The value a case-insensitive `get` of `name` returns.
pub open spec fn spec_get(s: Seq<(Seq<u8>, Seq<u8>)>, name: Seq<u8>) -> Option<Seq<u8>> {
    spec_lookup(s, lower(name))
}

/// What setting a header does: merge onto an existing entry by comma, or
/// append a fresh entry.
pub open spec fn spec_set_entries(
    s: Seq<(Seq<u8>, Seq<u8>)>,
    name: Seq<u8>,
    value: Seq<u8>,
) -> Seq<(Seq<u8>, Seq<u8>)> {
    let k = lower(name);
    match spec_find(s, k) {
        Some(i) => s.update(i, (k, s[i].1 + seq![44u8] + value)),
        None => s.push((k, value)),
    }
}

/// What replacing a header does: overwrite an existing entry, or append a
/// fresh one.
pub open spec fn spec_replace_entries(
    s: Seq<(Seq<u8>, Seq<u8>)>,
    name: Seq<u8>,
    value: Seq<u8>,
) -> Seq<(Seq<u8>, Seq<u8>)> {
    let k = lower(name);
    match spec_find(s, k) {
        Some(i) => s.update(i, (k, value)),
        None => s.push((k, value)),
    }
}

/// `spec_find` returns the least index named `k`.
pub proof fn lemma_spec_find_char(s: Seq<(Seq<u8>, Seq<u8>)>, k: Seq<u8>)
    ensures
        match spec_find(s, k) {
            Some(i) => 0 <= i < s.len() && s[i].0 == k && (forall|j: int|
                0 <= j < i ==> s[j].0 != k),
            None => forall|j: int| 0 <= j < s.len() ==> s[j].0 != k,
        },
    decreases s.len(),
{
    if s.len() == 0 {
    } else if s[0].0 == k {
    } else {
        lemma_spec_find_char(s.skip(1), k);
        assert(forall|j: int| 0 <= j < s.len() - 1 ==> s.skip(1)[j] == s[j + 1]);
        match spec_find(s.skip(1), k) {
            Some(i) => {
                assert(s[i + 1].0 == k);
                assert forall|j: int| 0 <= j < i + 1 implies s[j].0 != k by {
                    if j > 0 {
                        assert(s.skip(1)[j - 1].0 != k);
                    }
                }
            },
            None => {
                assert forall|j: int| 0 <= j < s.len() implies s[j].0 != k by {
                    if j > 0 {
                        assert(s.skip(1)[j - 1].0 != k);
                    }
                }
            },
        }
    }
}

/// A least witness named `k` pins down `spec_find`.
pub proof fn lemma_spec_find_unique(s: Seq<(Seq<u8>, Seq<u8>)>, k: Seq<u8>, i: int)
    requires
        0 <= i < s.len(),
        s[i].0 == k,
        forall|j: int| 0 <= j < i ==> s[j].0 != k,
    ensures
        spec_find(s, k) == Some(i),
{
    lemma_spec_find_char(s, k);
}

/// `spec_find` looks only at names.
pub proof fn lemma_spec_find_names(s1: Seq<(Seq<u8>, Seq<u8>)>, s2: Seq<(Seq<u8>, Seq<u8>)>, k: Seq<u8>)
    requires
        s1.len() == s2.len(),
        forall|i: int| 0 <= i < s1.len() ==> s1[i].0 == s2[i].0,
    ensures
        spec_find(s1, k) == spec_find(s2, k),
{
    lemma_spec_find_char(s1, k);
    lemma_spec_find_char(s2, k);
    match spec_find(s1, k) {
        Some(i) => {
            lemma_spec_find_unique(s2, k, i);
        },
        None => {
            if spec_find(s2, k) is Some {
                let i = spec_find(s2, k)->Some_0;
                assert(s1[i].0 == k);
            }
        },
    }
}

/// Lowercasing is idempotent.
pub proof fn lemma_lower_idem(s: Seq<u8>)
    ensures
        lower(lower(s)) == lower(s),
{
    assert forall|i: int| 0 <= i < s.len() implies lower(lower(s))[i] == lower(s)[i] by {
        assert(lower(s)[i] == lower_byte(s[i]));
        assert(lower(lower(s))[i] == lower_byte(lower_byte(s[i])));
    }
    assert(lower(lower(s)) =~= lower(s));
}

impl Headers {
    /// Every stored name is a nonempty lowercase token.
    pub open spec fn wf(&self) -> bool {
        forall|i: int|
            0 <= i < self@.len() ==> is_token((#[trigger] self@[i]).0) && self@[i].0 == lower(
                self@[i].0,
            )
    }

    /// An empty header map.
    pub fn new() -> (r: Headers)
        ensures
            r@ == Seq::<(Seq<u8>, Seq<u8>)>::empty(),
            r.wf(),
    {
        let r = Headers { headers: Vec::new() };
        proof {
            assert(r@ =~= Seq::<(Seq<u8>, Seq<u8>)>::empty());
        }
        r
    }

    /// Case-insensitive lookup: fold `name` to lowercase, then match the
    /// stored name exactly.
    pub fn get(&self, name: &[u8]) -> (r: Option<Vec<u8>>)
        ensures
            match r {
                Some(v) => spec_get(self@, name@) == Some(v@),
                None => spec_get(self@, name@) is None,
            },
    {
        let key = to_lower(name);
        let n = self.headers.len();
        let mut i: usize = 0;
        while i < n
            invariant
                0 <= i <= n == self@.len(),
                key@ == lower(name@),
                forall|j: int| 0 <= j < i ==> self@[j].0 != key@,
            decreases n - i,
        {
            let pair = &self.headers[i];
            if bytes_eq(pair.0.as_slice(), key.as_slice()) {
                let v = slice_to_vec(pair.1.as_slice());
                proof {
                    lemma_spec_find_unique(self@, key@, i as int);
                }
                return Some(v);
            }
            i = i + 1;
        }
        proof {
            lemma_spec_find_char(self@, key@);
        }
        None
    }

    /// Store `value` under `name`, which must already be a lowercase
    /// token: merge by comma onto an existing entry, else append.
    #[verifier::loop_isolation(false)]
    fn push_or_merge(&mut self, name: Vec<u8>, value: Vec<u8>)
        requires
            old(self).wf(),
            is_token(name@),
            name@ == lower(name@),
        ensures
            final(self).wf(),
            final(self)@ == spec_set_entries(old(self)@, name@, value@),
    {
        proof {
            lemma_lower_idem(name@);
        }
        let n = self.headers.len();
        let mut i: usize = 0;
        while i < n
            invariant
                *self == *old(self),
                0 <= i <= n == self@.len(),
                forall|j: int| 0 <= j < i ==> self@[j].0 != name@,
            decreases n - i,
        {
            let hit = {
                let pair = &self.headers[i];
                bytes_eq(pair.0.as_slice(), name.as_slice())
            };
            if hit {
                proof {
                    lemma_spec_find_unique(self@, name@, i as int);
                }
                let ghost v0 = value@;
                let ghost nm = name@;
                let mut merged = {
                    let pair = &self.headers[i];
                    slice_to_vec(pair.1.as_slice())
                };
                merged.push(44);
                let mut v = value;
                merged.append(&mut v);
                let ghost mg = merged@;
                proof {
                    assert(mg =~= old(self)@[i as int].1 + seq![44u8] + v0);
                }
                let ghost before = self.headers@;
                self.headers.remove(i);
                self.headers.insert(i, (name, merged));
                proof {
                    let r = before.remove(i as int);
                    r.insert_ensures(i as int, self.headers@[i as int]);
                    assert(self.headers@[i as int].0@ == nm && self.headers@[i as int].1@ == mg);
                    assert(self.headers@ =~= before.update(i as int, self.headers@[i as int]));
                    assert(nm == lower(nm));
                    assert(spec_find(old(self)@, nm) == Some(i as int));
                    let target = spec_set_entries(old(self)@, nm, v0);
                    assert(target == old(self)@.update(
                        i as int,
                        (nm, old(self)@[i as int].1 + seq![44u8] + v0),
                    ));
                    assert forall|j: int| 0 <= j < self@.len() implies self@[j] == target[j] by {
                        if j != i {
                            assert(self@[j] == old(self)@[j]);
                        } else {
                            assert(self@[j].0 == nm && self@[j].1 == mg);
                        }
                    }
                    assert(self@ =~= target);
                    assert forall|j: int|
                        0 <= j < self@.len() implies is_token(#[trigger] self@[j].0)
                        && self@[j].0 == lower(self@[j].0) by {
                        if j != i {
                            assert(self@[j] == old(self)@[j]);
                            assert(is_token(old(self)@[j].0));
                        } else {
                            assert(self@[j].0 == nm);
                        }
                    }
                }
                return ;
            }
            i = i + 1;
        }
        proof {
            lemma_spec_find_char(self@, name@);
        }
        let ghost v0 = value@;
        let ghost nm = name@;
        self.headers.push((name, value));
        proof {
            let target = spec_set_entries(old(self)@, nm, v0);
            assert(target == old(self)@.push((nm, v0)));
            assert(self.headers@[self.headers@.len() - 1].0@ == nm);
            assert(self.headers@[self.headers@.len() - 1].1@ == v0);
            assert forall|j: int| 0 <= j < self@.len() implies self@[j] == target[j] by {
                if j < self@.len() - 1 {
                    assert(self@[j] == old(self)@[j]);
                }
            }
            assert(self@ =~= target);
            assert forall|j: int|
                0 <= j < self@.len() implies is_token(#[trigger] self@[j].0) && self@[j].0
                == lower(self@[j].0) by {
                if j < self@.len() - 1 {
                    assert(self@[j] == old(self)@[j]);
                    assert(is_token(old(self)@[j].0));
                } else {
                    assert(self@[j].0 == nm);
                }
            }
        }
    }

    /// Validate `name` as a token, lowercase it, and merge `value` in:
    /// a repeated name gets `old,new`, a fresh one is inserted.
    pub fn set(&mut self, name: Vec<u8>, value: Vec<u8>) -> (r: Result<(), HTTPParsingError>)
        requires
            old(self).wf(),
        ensures
            final(self).wf(),
            match r {
                Ok(()) => is_token(lower(name@)) && final(self)@ == spec_set_entries(
                    old(self)@,
                    name@,
                    value@,
                ),
                Err(e) => e == HTTPParsingError::BadToken && !is_token(lower(name@))
                    && final(self)@ == old(self)@,
            },
    {
        let key = to_lower(name.as_slice());
        if !check_token(key.as_slice()) {
            return Err(HTTPParsingError::BadToken);
        }
        proof {
            lemma_lower_idem(name@);
        }
        self.push_or_merge(key, value);
        Ok(())
    }

    /// Validate `name` as a token, lowercase it, and store `value`,
    /// overwriting any existing entry of that name.
    #[verifier::loop_isolation(false)]
    pub fn replace(&mut self, name: Vec<u8>, value: Vec<u8>) -> (r: Result<
        (),
        HTTPParsingError,
    >)
        requires
            old(self).wf(),
        ensures
            final(self).wf(),
            match r {
                Ok(()) => is_token(lower(name@)) && final(self)@ == spec_replace_entries(
                    old(self)@,
                    name@,
                    value@,
                ),
                Err(e) => e == HTTPParsingError::BadToken && !is_token(lower(name@))
                    && final(self)@ == old(self)@,
            },
    {
        let key = to_lower(name.as_slice());
        if !check_token(key.as_slice()) {
            return Err(HTTPParsingError::BadToken);
        }
        proof {
            lemma_lower_idem(name@);
        }
        let n = self.headers.len();
        let mut i: usize = 0;
        while i < n
            invariant
                *self == *old(self),
                0 <= i <= n == self@.len(),
                key@ == lower(name@),
                is_token(key@),
                forall|j: int| 0 <= j < i ==> self@[j].0 != key@,
            decreases n - i,
        {
            let hit = {
                let pair = &self.headers[i];
                bytes_eq(pair.0.as_slice(), key.as_slice())
            };
            if hit {
                proof {
                    lemma_spec_find_unique(self@, key@, i as int);
                }
                let ghost before = self.headers@;
                let ghost v0 = value@;
                let ghost ky = key@;
                self.headers.remove(i);
                self.headers.insert(i, (key, value));
                proof {
                    let r = before.remove(i as int);
                    r.insert_ensures(i as int, self.headers@[i as int]);
                    assert(self.headers@[i as int].0@ == ky && self.headers@[i as int].1@ == v0);
                    assert(self.headers@ =~= before.update(i as int, self.headers@[i as int]));
                    let target = spec_replace_entries(old(self)@, name@, v0);
                    assert(target == old(self)@.update(i as int, (ky, v0)));
                    assert forall|j: int| 0 <= j < self@.len() implies self@[j] == target[j] by {
                        if j != i {
                            assert(self@[j] == old(self)@[j]);
                        } else {
                            assert(self@[j].0 == ky && self@[j].1 == v0);
                        }
                    }
                    assert(self@ =~= target);
                    assert forall|j: int|
                        0 <= j < self@.len() implies is_token(#[trigger] self@[j].0)
                        && self@[j].0 == lower(self@[j].0) by {
                        if j != i {
                            assert(self@[j] == old(self)@[j]);
                            assert(is_token(old(self)@[j].0));
                        } else {
                            assert(self@[j].0 == ky);
                        }
                    }
                }
                return Ok(());
            }
            i = i + 1;
        }
        proof {
            lemma_spec_find_char(self@, key@);
        }
        let ghost v0 = value@;
        let ghost ky = key@;
        self.headers.push((key, value));
        proof {
            let target = spec_replace_entries(old(self)@, name@, v0);
            assert(target == old(self)@.push((ky, v0)));
            assert(self.headers@[self.headers@.len() - 1].0@ == ky);
            assert(self.headers@[self.headers@.len() - 1].1@ == v0);
            assert forall|j: int| 0 <= j < self@.len() implies self@[j] == target[j] by {
                if j < self@.len() - 1 {
                    assert(self@[j] == old(self)@[j]);
                }
            }
            assert(self@ =~= target);
            assert forall|j: int|
                0 <= j < self@.len() implies is_token(#[trigger] self@[j].0) && self@[j].0
                == lower(self@[j].0) by {
                if j < self@.len() - 1 {
                    assert(self@[j] == old(self)@[j]);
                    assert(is_token(old(self)@[j].0));
                } else {
                    assert(self@[j].0 == ky);
                }
            }
        }
        Ok(())
    }
}

/// Looking a name up is insensitive to its case.
///
/// Any two spellings of a name that fold to the same lowercase bytes
/// reach the same stored value.
pub proof fn lemma_get_case_insensitive(
    s: Seq<(Seq<u8>, Seq<u8>)>,
    a: Seq<u8>,
    b: Seq<u8>,
)
    requires
        lower(a) == lower(b),
    ensures
        spec_get(s, a) == spec_get(s, b),
{
}

/// Setting a name that is present merges the values by a comma; setting a
/// fresh name stores the value as given. Other names are untouched.
pub proof fn lemma_set_merges(s: Seq<(Seq<u8>, Seq<u8>)>, name: Seq<u8>, value: Seq<u8>)
    ensures
        match spec_get(s, name) {
            Some(v) => spec_get(spec_set_entries(s, name, value), name) == Some(
                v + seq![44u8] + value,
            ),
            None => spec_get(spec_set_entries(s, name, value), name) == Some(value),
        },
{
    let k = lower(name);
    lemma_spec_find_char(s, k);
    let s2 = spec_set_entries(s, name, value);
    match spec_find(s, k) {
        Some(i) => {
            assert(s2.len() == s.len());
            assert(forall|j: int| 0 <= j < s.len() ==> s2[j].0 == s[j].0);
            lemma_spec_find_names(s, s2, k);
        },
        None => {
            assert(s2[s.len() as int].0 == k);
            lemma_spec_find_unique(s2, k, s.len() as int);
        },
    }
}

/// Setting one name leaves every other name's value alone.
pub proof fn lemma_set_preserves_others(
    s: Seq<(Seq<u8>, Seq<u8>)>,
    name: Seq<u8>,
    value: Seq<u8>,
    other: Seq<u8>,
)
    requires
        lower(other) != lower(name),
    ensures
        spec_get(spec_set_entries(s, name, value), other) == spec_get(s, other),
{
    let k = lower(name);
    let k2 = lower(other);
    lemma_spec_find_char(s, k);
    lemma_spec_find_char(s, k2);
    let s2 = spec_set_entries(s, name, value);
    match spec_find(s, k) {
        Some(i) => {
            lemma_spec_find_names(s, s2, k2);
        },
        None => {
            match spec_find(s, k2) {
                Some(j) => {
                    lemma_spec_find_unique(s2, k2, j);
                },
                None => {
                    lemma_spec_find_char(s2, k2);
                    if spec_find(s2, k2) is Some {
                        let j = spec_find(s2, k2)->Some_0;
                        assert(s2[j].0 == k2);
                        assert(j == s.len());
                    }
                },
            }
        },
    }
}

} // verus!

verus! {

/// What one header line means: the lowercased, token-validated name and
/// the trimmed value, or the rejection. A line with no colon or with a
/// non-UTF-8 value is `BadFieldLine`, as is a name with trailing
/// whitespace before the colon; a name with a byte outside the token
/// alphabet is `BadToken`.
pub open spec fn spec_field_line(line: Seq<u8>) -> Result<(Seq<u8>, Seq<u8>), HTTPParsingError> {
    match find_byte(line, 58) {
        None => Err(HTTPParsingError::BadFieldLine),
        Some(c) => {
            let name = line.take(c);
            let value = line.skip(c + 1);
            if name.len() > 0 && is_ws(name[name.len() - 1]) {
                Err(HTTPParsingError::BadFieldLine)
            } else if !is_token(lower(name)) {
                Err(HTTPParsingError::BadToken)
            } else if !vstd::utf8::valid_utf8(value) {
                Err(HTTPParsingError::BadFieldLine)
            } else {
                Ok((lower(name), trim(value)))
            }
        },
    }
}

/// Split one header line at its first colon and normalize both halves.
fn parse_field_line(line: &[u8]) -> (r: Result<(Vec<u8>, Vec<u8>), HTTPParsingError>)
    ensures
        match r {
            Ok(nv) => spec_field_line(line@) == Ok::<(Seq<u8>, Seq<u8>), HTTPParsingError>(
                (nv.0@, nv.1@),
            ) && is_token(nv.0@) && nv.0@ == lower(nv.0@),
            Err(e) => spec_field_line(line@) == Err::<(Seq<u8>, Seq<u8>), HTTPParsingError>(e),
        },
{
    proof {
        assert(line@.skip(0) =~= line@);
    }
    match find_byte_from(line, 0, 58) {
        None => Err(HTTPParsingError::BadFieldLine),
        Some(c) => {
            if c > 0 && (line[c - 1] == 32 || line[c - 1] == 9) {
                return Err(HTTPParsingError::BadFieldLine);
            }
            let name = to_lower(slice_subrange(line, 0, c));
            proof {
                assert(line@.subrange(0, c as int) =~= line@.take(c as int));
                lemma_lower_idem(line@.take(c as int));
            }
            if !check_token(name.as_slice()) {
                return Err(HTTPParsingError::BadToken);
            }
            let value_raw = slice_subrange(line, c + 1, line.len());
            proof {
                assert(line@.subrange(c + 1, line@.len() as int) =~= line@.skip(c + 1));
            }
            if !utf8_check(value_raw) {
                return Err(HTTPParsingError::BadFieldLine);
            }
            let value = trim_bytes(value_raw);
            Ok((name, value))
        },
    }
}

/// The outcome of running the header-section machine over a buffer:
/// the entries after the run, how many bytes it consumed, whether the
/// empty line ended the section, and the error if a line was rejected.
pub ghost struct HeadersOut {
    pub entries: Seq<(Seq<u8>, Seq<u8>)>,
    pub used: int,
    pub done: bool,
    pub err: Option<HTTPParsingError>,
}

/// Run the header-section machine over `s`: consume complete lines until
/// the empty line (section done), a rejected line (error), or no CRLF is
/// in sight (wait for more input, consuming nothing past the last
/// complete line).
pub open spec fn spec_headers_parse(entries: Seq<(Seq<u8>, Seq<u8>)>, s: Seq<u8>) -> HeadersOut
    decreases s.len(),
{
    match find_crlf(s) {
        None => HeadersOut { entries, used: 0, done: false, err: None },
        Some(i) => {
            if i == 0 {
                HeadersOut { entries, used: 2, done: true, err: None }
            } else if 1 <= i && i + 2 <= s.len() {
                match spec_field_line(s.take(i)) {
                    Err(e) => HeadersOut { entries, used: 0, done: false, err: Some(e) },
                    Ok(nv) => {
                        let rest = spec_headers_parse(
                            spec_set_entries(entries, nv.0, nv.1),
                            s.skip(i + 2),
                        );
                        HeadersOut {
                            entries: rest.entries,
                            used: i + 2 + rest.used,
                            done: rest.done,
                            err: rest.err,
                        }
                    },
                }
            } else {
                HeadersOut { entries, used: 0, done: false, err: None }
            }
        },
    }
}

impl Headers {
    /// Consume complete `name: value` lines from `b`, merging each into
    /// the map, until the empty line that ends the section (consumed,
    /// reported `true`), a rejected line (the error), or no complete
    /// line remains (bytes consumed so far, reported `false`: the caller
    /// must supply more input).
    #[verifier::loop_isolation(false)]
    pub fn parse(&mut self, b: &[u8]) -> (r: Result<(usize, bool), HTTPParsingError>)
        requires
            old(self).wf(),
        ensures
            final(self).wf(),
            final(self)@ == spec_headers_parse(old(self)@, b@).entries,
            match r {
                Ok(p) => spec_headers_parse(old(self)@, b@).err is None && p.0
                    == spec_headers_parse(old(self)@, b@).used && p.1 == spec_headers_parse(
                    old(self)@,
                    b@,
                ).done,
                Err(e) => spec_headers_parse(old(self)@, b@).err == Some(e),
            },
    {
        let ghost full = spec_headers_parse(old(self)@, b@);
        proof {
            assert(b@.skip(0) =~= b@);
        }
        let n: usize = b.len();
        let mut read: usize = 0;
        loop
            invariant
                self.wf(),
                read <= b@.len(),
                ({
                    let rest = spec_headers_parse(self@, b@.skip(read as int));
                    full.entries == rest.entries && full.done == rest.done && full.err == rest.err
                        && (rest.err is None ==> full.used == read + rest.used)
                }),
            decreases b@.len() - read,
        {
            match find_crlf_from(b, read) {
                None => {
                    return Ok((read, false));
                },
                Some(i) => {
                    if i == read {
                        return Ok((read + 2, true));
                    }
                    let line = slice_to_vec(slice_subrange(b, read, i));
                    proof {
                        assert(line@ =~= b@.skip(read as int).take(i - read));
                    }
                    match parse_field_line(line.as_slice()) {
                        Err(e) => {
                            return Err(e);
                        },
                        Ok(nv) => {
                            let (name, value) = nv;
                            let ghost nm = name@;
                            let ghost vv = value@;
                            self.push_or_merge(name, value);
                            proof {
                                assert(b@.skip(read as int).skip(i - read + 2) =~= b@.skip(
                                    i + 2,
                                ));
                            }
                            read = i + 2;
                        },
                    }
                },
            }
        }
    }
}

} // verus!

verus! {

/// The header-section machine consumes within bounds: never more than
/// the buffer, nothing on error, and at least the final CRLF when done.
pub proof fn lemma_headers_parse_bounds(entries: Seq<(Seq<u8>, Seq<u8>)>, s: Seq<u8>)
    ensures
        0 <= spec_headers_parse(entries, s).used <= s.len(),
        spec_headers_parse(entries, s).err is Some ==> !spec_headers_parse(entries, s).done,
        spec_headers_parse(entries, s).done ==> spec_headers_parse(entries, s).used >= 2,
    decreases s.len(),
{
    match find_crlf(s) {
        None => {},
        Some(i) => {
            lemma_find_crlf_char(s);
            if i == 0 {
            } else {
                match spec_field_line(s.take(i)) {
                    Err(_) => {},
                    Ok(nv) => {
                        lemma_headers_parse_bounds(
                            spec_set_entries(entries, nv.0, nv.1),
                            s.skip(i + 2),
                        );
                    },
                }
            }
        },
    }
}

} // verus!

verus! {

/// Extending the buffer on the right does not disturb the lines already
/// handled: the machine works through the original buffer exactly as
/// before, then continues over the unconsumed tail plus the new bytes.
pub proof fn lemma_headers_parse_append(entries: Seq<(Seq<u8>, Seq<u8>)>, s: Seq<u8>, t: Seq<u8>)
    ensures
        ({
            let h1 = spec_headers_parse(entries, s);
            let h = spec_headers_parse(entries, s + t);
            if h1.err is Some {
                h.err == h1.err && h.entries == h1.entries && h.done == h1.done
            } else if h1.done {
                h.entries == h1.entries && h.used == h1.used && h.done == h1.done && h.err
                    == h1.err
            } else {
                let h2 = spec_headers_parse(h1.entries, s.skip(h1.used) + t);
                h.entries == h2.entries && h.used == h1.used + h2.used && h.done == h2.done
                    && h.err == h2.err
            }
        }),
    decreases s.len(),
{
    let h1 = spec_headers_parse(entries, s);
    let h = spec_headers_parse(entries, s + t);
    match find_crlf(s) {
        None => {
            assert(s.skip(0) + t =~= s + t);
        },
        Some(i) => {
            lemma_find_crlf_char(s);
            crate::scan::lemma_find_crlf_append(s, t);
            if i == 0 {
            } else {
                assert((s + t).take(i) =~= s.take(i));
                match spec_field_line(s.take(i)) {
                    Err(_) => {},
                    Ok(nv) => {
                        let e2 = spec_set_entries(entries, nv.0, nv.1);
                        lemma_headers_parse_append(e2, s.skip(i + 2), t);
                        lemma_headers_parse_bounds(e2, s.skip(i + 2));
                        assert((s + t).skip(i + 2) =~= s.skip(i + 2) + t);
                        let rest1 = spec_headers_parse(e2, s.skip(i + 2));
                        if rest1.err is Some {
                        } else if rest1.done {
                        } else {
                            assert(s.skip(h1.used) =~= s.skip(i + 2).skip(rest1.used));
                        }
                    },
                }
            }
        },
    }
}

} // verus!

verus! {

/// A header line is accepted only when every byte of its name (the part
/// before the first colon) folds to a token byte; in particular a name
/// holding `@` or a space is rejected.
pub proof fn lemma_field_line_rejects_bad_name(line: Seq<u8>, i: int)
    requires
        0 <= i,
        match find_byte(line, 58) {
            Some(c) => i < c,
            None => false,
        },
        line[i] == 64 || line[i] == 32,
    ensures
        spec_field_line(line) is Err,
{
    let c = find_byte(line, 58)->Some_0;
    lemma_find_byte_char(line, 58);
    if spec_field_line(line) is Ok {
        assert(is_token(lower(line.take(c))));
        assert(lower(line.take(c))[i] == lower_byte(line[i]));
        assert(lower_byte(line[i]) == line[i]);
        assert(is_tchar(lower(line.take(c))[i]));
    }
}

} // verus!
