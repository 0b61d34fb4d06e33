//! User-ID anonymization.
//!
//! The anonymization salt is **random per run** and is **never persisted**,
//! so identical user IDs hash to *different* `ANON-xxxxxx` codes across runs
//! (cross-run untraceable). The reverse mapping is only available *within* a
//! single run, as the run-local `anonymize_map.tsv` text that
//! [`Anonymizer::map_tsv`] renders. Sampling-reproducibility seeds (if any)
//! are intentionally separate from this salt.

use rand::rngs::OsRng;
use rand::RngCore;
use rand::SeedableRng;
use rand_chacha::ChaCha20Rng;
use vstd::prelude::*;
use vstd::utf8::encode_utf8;

use crate::error::CommError;
use crate::digest::{hex_byte, push_hex, sha256, sha256_digest};
use crate::strings::{
    chars_of, lemma_insert_by_at, lemma_seq_lt_asymmetric, lemma_seq_lt_irreflexive, lemma_seq_lt_total,
    lemma_seq_lt_transitive, lemma_sort_by_sorted, owned, seq_lt, sort_by, sorted_by,
    strict_weak_order, str_eq, str_lt,
    string_of,
};

verus! {

#[verifier::external_type_specification]
#[verifier::external_body]
pub struct ExChaCha20Rng(ChaCha20Rng);

/// `ChaCha20Rng::from_rng(OsRng)` (rand_chacha, through `SeedableRng`): a
/// generator seeded from the operating system's random source, or that
/// source's error message when it fails. Nothing is stated of the seed, nor
/// of when the system source fails.
#[verifier::external_body]
fn rng_from_os() -> Result<ChaCha20Rng, String> {
    match ChaCha20Rng::from_rng(OsRng) {
        Ok(rng) => Ok(rng),
        Err(e) => Err(e.to_string()),
    }
}

/// `RngCore::fill_bytes` on a `ChaCha20Rng`: overwrites `buf` with random
/// bytes; nothing is stated of them.
#[verifier::external_body]
fn rng_fill(rng: &mut ChaCha20Rng, buf: &mut [u8; 16]) {
    rng.fill_bytes(buf);
}

/// `"ANON-"` followed by the first 6 lower-case hex digits of
/// `SHA256(salt ++ utf8(uid))`.
pub open spec fn anon_code(salt: Seq<u8>, uid: Seq<char>) -> Seq<char> {
    let d = sha256_digest(salt + encode_utf8(uid));
    "ANON-"@ + hex_byte(d[0]) + hex_byte(d[1]) + hex_byte(d[2])
}

/// What `anon` returns for `uid`.
pub open spec fn anon_result(enabled: bool, salt: Seq<u8>, uid: Seq<char>) -> Seq<char> {
    if enabled {
        anon_code(salt, uid)
    } else {
        uid
    }
}

pub open spec fn entry_views(m: Seq<(String, String)>) -> Seq<(Seq<char>, Seq<char>)> {
    m.map_values(|e: (String, String)| (e.0@, e.1@))
}

pub open spec fn originals(m: Seq<(Seq<char>, Seq<char>)>) -> Seq<Seq<char>> {
    m.map_values(|e: (Seq<char>, Seq<char>)| e.0)
}

/// The map after anonymizing `uid` to `code`: a new ID is appended.
pub open spec fn recorded(
    enabled: bool,
    m: Seq<(Seq<char>, Seq<char>)>,
    uid: Seq<char>,
    code: Seq<char>,
) -> Seq<(Seq<char>, Seq<char>)> {
    if !enabled || originals(m).contains(uid) {
        m
    } else {
        m.push((uid, code))
    }
}

/// The `(code, original)` rows of `(original, code)` entries.
pub open spec fn rows_of(m: Seq<(Seq<char>, Seq<char>)>) -> Seq<(Seq<char>, Seq<char>)> {
    m.map_values(|e: (Seq<char>, Seq<char>)| (e.1, e.0))
}

/// Lexicographic order on `(code, original)` rows.
pub open spec fn row_order() -> spec_fn((Seq<char>, Seq<char>), (Seq<char>, Seq<char>)) -> bool {
    |a: (Seq<char>, Seq<char>), b: (Seq<char>, Seq<char>)|
        seq_lt(a.0, b.0) || (a.0 == b.0 && seq_lt(a.1, b.1))
}

pub open spec fn tsv_header() -> Seq<char> {
    "# anon\toriginal  (run-local; salt not persisted)\n"@
}

/// One `code<TAB>original<LF>` line per row.
pub open spec fn tsv_rows(rows: Seq<(Seq<char>, Seq<char>)>) -> Seq<char>
    decreases rows.len(),
{
    if rows.len() == 0 {
        seq![]
    } else {
        tsv_rows(rows.drop_last()) + rows.last().0 + seq!['\t'] + rows.last().1 + seq!['\n']
    }
}

/// Anonymizes raw platform user IDs with a stable (within this instance)
/// salted SHA-256 prefix, recording the reverse mapping for a run-local TSV.
pub struct Anonymizer {
    enabled: bool,
    salt: [u8; 16],
    map: Vec<(String, String)>,
}

impl Anonymizer {
    pub closed spec fn spec_enabled(&self) -> bool {
        self.enabled
    }

    pub closed spec fn spec_salt(&self) -> Seq<u8> {
        self.salt@
    }

    /// The `(original, code)` pairs recorded so far, in order of first use.
    pub closed spec fn spec_map(&self) -> Seq<(Seq<char>, Seq<char>)> {
        entry_views(self.map@)
    }

    /// Every recorded code is the code of its original, and each original
    /// is recorded once.
    pub open spec fn wf(&self) -> bool {
        let m = self.spec_map();
        &&& forall|i: int| 0 <= i < m.len() ==> (#[trigger] m[i]).1 == anon_code(self.spec_salt(), m[i].0)
        &&& originals(m).no_duplicates()
    }

    /// Build an anonymizer with a **random per-run** salt (a `ChaCha20Rng`
    /// seeded from the operating system). The salt is NOT derived from any
    /// caller-provided seed and NOT persisted. When the operating system's
    /// random source fails, the error carries its message.
    pub fn new(enabled: bool) -> (r: Result<Self, CommError>)
        ensures
            r matches Ok(a) ==> a.wf() && a.spec_enabled() == enabled && a.spec_salt().len() == 16
                && a.spec_map().len() == 0,
            r matches Err(e) ==> e is Generic,
    {
        let mut rng = match rng_from_os() {
            Ok(rng) => rng,
            Err(msg) => {
                let mut m = owned("OS random source unavailable: ");
                m.append(msg.as_str());
                return Err(CommError::Generic(m));
            },
        };
        let mut salt = [0u8; 16];
        rng_fill(&mut rng, &mut salt);
        let r = Anonymizer { enabled, salt, map: Vec::new() };
        assert(r.spec_map() =~= Seq::<(Seq<char>, Seq<char>)>::empty());
        Ok(r)
    }

    /// Build an anonymizer with a fixed salt. **Test / reproducibility only.**
    pub fn with_salt(enabled: bool, salt: [u8; 16]) -> (r: Self)
        ensures
            r.wf(),
            r.spec_enabled() == enabled,
            r.spec_salt() == salt@,
            r.spec_map().len() == 0,
    {
        let r = Anonymizer { enabled, salt, map: Vec::new() };
        assert(r.spec_map() =~= Seq::<(Seq<char>, Seq<char>)>::empty());
        r
    }

    /// Anonymize a user ID.
    ///
    /// When disabled, returns the input unchanged. Otherwise returns
    /// `"ANON-" + first 6 lowercase hex chars of SHA256(salt ++ user_id)`,
    /// stable within this instance and recorded in the reverse map.
    pub fn anon(&mut self, user_id: &str) -> (r: String)
        requires
            old(self).wf(),
        ensures
            final(self).wf(),
            r@ == anon_result(old(self).spec_enabled(), old(self).spec_salt(), user_id@),
            final(self).spec_enabled() == old(self).spec_enabled(),
            final(self).spec_salt() == old(self).spec_salt(),
            final(self).spec_map() == recorded(
                old(self).spec_enabled(),
                old(self).spec_map(),
                user_id@,
                r@,
            ),
    {
        if !self.enabled {
            return owned(user_id);
        }
        let ghost m = entry_views(self.map@);
        let mut k: usize = 0;
        while k < self.map.len()
            invariant
                k <= self.map.len(),
                m == entry_views(self.map@),
                self.wf(),
                self.enabled,
                forall|i: int| 0 <= i < k ==> m[i].0 != user_id@,
            decreases self.map.len() - k,
        {
            if str_eq(self.map[k].0.as_str(), user_id) {
                assert(m[k as int].0 == user_id@);
                assert(originals(m)[k as int] == user_id@);
                assert(m[k as int].1 == anon_code(self.spec_salt(), m[k as int].0));
                return self.map[k].1.clone();
            }
            k = k + 1;
        }
        assert(!originals(m).contains(user_id@)) by {
            if originals(m).contains(user_id@) {
                let i = choose|i: int| 0 <= i < originals(m).len() && originals(m)[i] == user_id@;
                assert(m[i].0 == user_id@);
            }
        }
        let code = self.code_of(user_id);
        let ghost before = self.map@;
        self.map.push((owned(user_id), code.clone()));
        proof {
            let m2 = entry_views(self.map@);
            assert(m2 =~= m.push((user_id@, code@)));
            assert(originals(m2) =~= originals(m).push(user_id@));
            assert forall|i: int, j: int|
                0 <= i < originals(m2).len() && 0 <= j < originals(m2).len() && i != j implies originals(m2)[i]
                != originals(m2)[j] by {
                if i < m.len() && j < m.len() {
                    assert(originals(m2)[i] == originals(m)[i]);
                    assert(originals(m2)[j] == originals(m)[j]);
                } else if i < m.len() {
                    assert(originals(m2)[i] == originals(m)[i]);
                } else if j < m.len() {
                    assert(originals(m2)[j] == originals(m)[j]);
                }
            }
        }
        code
    }

    /// `anon_code(salt, user_id)`.
    fn code_of(&self, user_id: &str) -> (r: String)
        ensures
            r@ == anon_code(self.salt@, user_id@),
    {
        let mut data: Vec<u8> = Vec::new();
        let mut i: usize = 0;
        while i < 16
            invariant
                i <= 16,
                data@ == self.salt@.take(i as int),
            decreases 16 - i,
        {
            data.push(self.salt[i]);
            i = i + 1;
            assert(data@ =~= self.salt@.take(i as int));
        }
        assert(self.salt@.take(16) =~= self.salt@);
        let bytes = user_id.as_bytes();
        let mut j: usize = 0;
        while j < bytes.len()
            invariant
                j <= bytes.len(),
                data@ == self.salt@ + bytes@.take(j as int),
            decreases bytes.len() - j,
        {
            data.push(bytes[j]);
            j = j + 1;
            assert(data@ =~= self.salt@ + bytes@.take(j as int));
        }
        assert(bytes@.take(bytes.len() as int) =~= bytes@);
        let d = sha256(data.as_slice());
        let mut out = chars_of("ANON-");
        push_hex(&mut out, d[0]);
        push_hex(&mut out, d[1]);
        push_hex(&mut out, d[2]);
        assert(out@ =~= "ANON-"@ + hex_byte(d@[0]) + hex_byte(d@[1]) + hex_byte(d@[2]));
        string_of(&out)
    }

    /// Whether anonymization is enabled.
    pub fn is_enabled(&self) -> (r: bool)
        ensures
            r == self.spec_enabled(),
    {
        self.enabled
    }

    /// The reverse map as `(code, original)` rows, sorted.
    pub fn map_rows(&self) -> (r: Vec<(String, String)>)
        ensures
            entry_views(r@) == sort_by(rows_of(self.spec_map()), row_order()),
    {
        let ghost rows = rows_of(entry_views(self.map@));
        let mut r: Vec<(String, String)> = Vec::new();
        let mut k: usize = 0;
        while k < self.map.len()
            invariant
                k <= self.map.len(),
                rows == rows_of(entry_views(self.map@)),
                entry_views(r@) == sort_by(rows.take(k as int), row_order()),
            decreases self.map.len() - k,
        {
            let x = (self.map[k].1.clone(), self.map[k].0.clone());
            let ghost xv = (x.0@, x.1@);
            assert(rows[k as int] == xv);
            let mut p = r.len();
            while p > 0 && row_lt(&x, &r[p - 1])
                invariant
                    p <= r.len(),
                    xv == (x.0@, x.1@),
                    forall|j: int| p <= j < r.len() ==> row_order()(xv, #[trigger] entry_views(r@)[j]),
                decreases p,
            {
                p = p - 1;
            }
            let ghost rv = entry_views(r@);
            proof {
                lemma_insert_by_at(rv, xv, row_order(), p as int);
                assert(rows.take(k + 1).drop_last() =~= rows.take(k as int));
                assert(rows.take(k + 1).last() == xv);
            }
            let ghost rb = r@;
            r.insert(p, x);
            assert(entry_views(r@) =~= entry_views(rb).subrange(0, p as int).push(xv) + entry_views(
                rb,
            ).subrange(p as int, rb.len() as int));
            k = k + 1;
        }
        assert(rows.take(self.map.len() as int) =~= rows);
        r
    }

    /// The run-local `anonymize_map.tsv` text: a header line, then one
    /// `code<TAB>original` line per recorded ID, sorted. `None` (nothing to
    /// write) when disabled or when no ID was anonymized.
    pub fn map_tsv(&self) -> (r: Option<String>)
        ensures
            r is None <==> (!self.spec_enabled() || self.spec_map().len() == 0),
            r matches Some(s) ==> s@ == tsv_header() + tsv_rows(
                sort_by(rows_of(self.spec_map()), row_order()),
            ),
    {
        if !self.enabled || self.map.len() == 0 {
            return None;
        }
        let rows = self.map_rows();
        let mut out = chars_of("# anon\toriginal  (run-local; salt not persisted)\n");
        let ghost rv = entry_views(rows@);
        let mut k: usize = 0;
        while k < rows.len()
            invariant
                k <= rows.len(),
                rv == entry_views(rows@),
                out@ == tsv_header() + tsv_rows(rv.take(k as int)),
            decreases rows.len() - k,
        {
            let ghost before = out@;
            append_str(&mut out, rows[k].0.as_str());
            out.push('\t');
            append_str(&mut out, rows[k].1.as_str());
            out.push('\n');
            proof {
                assert(rv.take(k + 1).drop_last() =~= rv.take(k as int));
                assert(rv.take(k + 1).last() == rv[k as int]);
                assert(out@ =~= before + rv[k as int].0 + seq!['\t'] + rv[k as int].1 + seq!['\n']);
            }
            k = k + 1;
        }
        assert(rv.take(rows.len() as int) =~= rv);
        Some(string_of(&out))
    }
}

/// `row_order()` on two rows.
fn row_lt(a: &(String, String), b: &(String, String)) -> (r: bool)
    ensures
        r == row_order()((a.0@, a.1@), (b.0@, b.1@)),
{
    str_lt(a.0.as_str(), b.0.as_str()) || (str_eq(a.0.as_str(), b.0.as_str()) && str_lt(
        a.1.as_str(),
        b.1.as_str(),
    ))
}

/// Appends the chars of `s` to `v`.
fn append_str(v: &mut Vec<char>, s: &str)
    ensures
        final(v)@ == old(v)@ + s@,
{
    let c = chars_of(s);
    let mut k: usize = 0;
    while k < c.len()
        invariant
            k <= c.len(),
            c@ == s@,
            v@ == old(v)@ + c@.take(k as int),
        decreases c.len() - k,
    {
        v.push(c[k]);
        k = k + 1;
        assert(v@ =~= old(v)@ + c@.take(k as int));
    }
    assert(c@.take(c.len() as int) =~= c@);
}

/// A code is `"ANON-"` followed by six lower-case hexadecimal digits.
pub proof fn lemma_anon_code_format(salt: Seq<u8>, uid: Seq<char>)
    ensures
        anon_code(salt, uid).len() == 11,
        anon_code(salt, uid).subrange(0, 5) == "ANON-"@,
        forall|i: int|
            5 <= i < 11 ==> {
                let c = #[trigger] anon_code(salt, uid)[i];
                ('0' <= c <= '9') || ('a' <= c <= 'f')
            },
{
    reveal_strlit("ANON-");
    let d = sha256_digest(salt + encode_utf8(uid));
    let code = anon_code(salt, uid);
    assert(code =~= "ANON-"@ + hex_byte(d[0]) + hex_byte(d[1]) + hex_byte(d[2]));
    assert(code.subrange(0, 5) =~= "ANON-"@);
    assert forall|i: int| 5 <= i < 11 implies {
        let c = #[trigger] code[i];
        ('0' <= c <= '9') || ('a' <= c <= 'f')
    } by {
        let b = d[(i - 5) / 2];
        assert(code[i] == hex_byte(b)[(i - 5) % 2]);
    }
}

/// Anonymizing an ID a second time records nothing new.
pub proof fn lemma_anon_records_once(
    enabled: bool,
    m: Seq<(Seq<char>, Seq<char>)>,
    uid: Seq<char>,
    code: Seq<char>,
)
    ensures
        recorded(enabled, recorded(enabled, m, uid, code), uid, code) == recorded(
            enabled,
            m,
            uid,
            code,
        ),
{
    if enabled && !originals(m).contains(uid) {
        let m1 = m.push((uid, code));
        assert(originals(m1)[m.len() as int] == uid);
    }
}

/// `row_order` is a strict weak order (lexicographic over `seq_lt`).
proof fn lemma_row_order_weak()
    ensures
        strict_weak_order(row_order()),
{
    let lt = row_order();
    assert forall|a: (Seq<char>, Seq<char>), b: (Seq<char>, Seq<char>)| #[trigger] lt(a, b) implies !lt(b, a) by {
        if seq_lt(a.0, b.0) {
            lemma_seq_lt_asymmetric(a.0, b.0);
        } else {
            lemma_seq_lt_asymmetric(a.1, b.1);
            lemma_seq_lt_irreflexive(a.0);
        }
    }
    assert forall|a: (Seq<char>, Seq<char>), b: (Seq<char>, Seq<char>), c: (Seq<char>, Seq<char>)|
        #[trigger] lt(a, b) && #[trigger] lt(a, c) == false implies lt(c, b) by {
        lemma_seq_lt_total(a.0, c.0);
        lemma_seq_lt_total(a.1, c.1);
        if seq_lt(c.0, a.0) {
            if seq_lt(a.0, b.0) {
                lemma_seq_lt_transitive(c.0, a.0, b.0);
            }
        } else if c.0 == a.0 {
            if seq_lt(c.1, a.1) && !seq_lt(a.0, b.0) {
                lemma_seq_lt_transitive(c.1, a.1, b.1);
            }
        }
    }
}

/// The rows of the anonymization map come out sorted: by code, then by
/// original id.
pub proof fn lemma_map_rows_sorted(m: Seq<(Seq<char>, Seq<char>)>)
    ensures
        sort_by(rows_of(m), row_order()).len() == m.len(),
        sorted_by(sort_by(rows_of(m), row_order()), row_order()),
{
    lemma_row_order_weak();
    lemma_sort_by_sorted(rows_of(m), row_order());
}

} // verus!
