//! Transactions and their canonical text form.  A full block carries one
//! transaction; the chain stores the text form and reads it back, so
//! decoding the encoding of a well-formed transaction gives the transaction
//! back unchanged.

use vstd::prelude::*;
use crate::bytes::Bytes;
use crate::commons::{spec_to_hex, spec_from_hex, to_hex, from_hex, lemma_to_hex_digits,
    lemma_hex_round_trip};
use crate::hashing::{hash_of, blakeout_digest};

verus! {

/// A claim on a name: the salted hash of the name, the value confirming
/// ownership, the class (`"domain"` or `"zone"`), the payload text, and the
/// claiming public key.
pub struct Transaction {
    pub identity: Bytes,
    pub confirmation: Bytes,
    pub class: String,
    pub data: String,
    pub pub_key: Bytes,
}

/// The mathematical value of a transaction.
#[verifier::ext_equal]
pub ghost struct TransactionV {
    pub identity: Seq<u8>,
    pub confirmation: Seq<u8>,
    pub class: Seq<char>,
    pub data: Seq<char>,
    pub pub_key: Seq<u8>,
}

impl View for Transaction {
    type V = TransactionV;

    open spec fn view(&self) -> TransactionV {
        TransactionV {
            identity: self.identity@,
            confirmation: self.confirmation@,
            class: self.class@,
            data: self.data@,
            pub_key: self.pub_key@,
        }
    }
}

impl Clone for Transaction {
    fn clone(&self) -> (res: Self)
        ensures
            res@ == self@,
    {
        let res = Transaction {
            identity: self.identity.clone(),
            confirmation: self.confirmation.clone(),
            class: self.class.clone(),
            data: self.data.clone(),
            pub_key: self.pub_key.clone(),
        };
        proof {
            assert(res@ =~= self@);
        }
        res
    }
}

impl PartialEq for Transaction {
    fn eq(&self, other: &Self) -> (r: bool) {
        let r = self.identity == other.identity && self.confirmation == other.confirmation
            && self.class == other.class && self.data == other.data && self.pub_key
            == other.pub_key;
        proof {
            if r {
                assert(self@ =~= other@);
            }
        }
        r
    }
}

impl vstd::std_specs::cmp::PartialEqSpecImpl for Transaction {
    open spec fn obeys_eq_spec() -> bool {
        true
    }

    open spec fn eq_spec(&self, other: &Self) -> bool {
        self@ == other@
    }
}

impl Eq for Transaction {}

/// A transaction the codec is asked to carry: its class is one of the two
/// the chain knows.
pub open spec fn wf_tx(t: TransactionV) -> bool {
    t.class == "domain"@ || t.class == "zone"@
}

/// Canonical text of a transaction: fixed keys in a fixed order, binary
/// fields in upper-case hexadecimal, the free-form payload last.
pub open spec fn spec_encode_tx(t: TransactionV) -> Seq<char> {
    "class="@ + t.class + ";confirmation="@ + spec_to_hex(t.confirmation) + ";identity="@
        + spec_to_hex(t.identity) + ";pub_key="@ + spec_to_hex(t.pub_key) + ";data="@ + t.data
}

/// Index of the first `;` at or after `i`, or the length when there is
/// none.
pub open spec fn semi_index(s: Seq<char>, i: int) -> int
    decreases s.len() - i,
{
    if i < 0 || i >= s.len() {
        s.len() as int
    } else if s[i] == ';' {
        i
    } else {
        semi_index(s, i + 1)
    }
}

pub proof fn lemma_semi_index_bounds(s: Seq<char>, i: int)
    requires
        0 <= i <= s.len(),
    ensures
        i <= semi_index(s, i) <= s.len(),
        semi_index(s, i) < s.len() ==> s[semi_index(s, i)] == ';',
        forall|k: int| i <= k < semi_index(s, i) ==> s[k] != ';',
    decreases s.len() - i,
{
    if i < s.len() && s[i] != ';' {
        lemma_semi_index_bounds(s, i + 1);
    }
}

pub proof fn lemma_semi_index_at(s: Seq<char>, i: int, j: int)
    requires
        0 <= i <= j < s.len(),
        s[j] == ';',
        forall|k: int| i <= k < j ==> s[k] != ';',
    ensures
        semi_index(s, i) == j,
    decreases j - i,
{
    if i < j {
        lemma_semi_index_at(s, i + 1, j);
    }
}

/// Reading of the canonical text back into a transaction value; `None`
/// where the text does not follow the format.
pub open spec fn spec_decode_tx(s: Seq<char>) -> Option<TransactionV> {
    if s.len() < 6 || s.subrange(0, 6) != "class="@ {
        None
    } else {
        let c_end = semi_index(s, 6);
        let class = s.subrange(6, c_end);
        if c_end + 14 > s.len() || s.subrange(c_end, c_end + 14) != ";confirmation="@ {
            None
        } else {
            let conf_end = semi_index(s, c_end + 14);
            match spec_from_hex(s.subrange(c_end + 14, conf_end)) {
                None => None,
                Some(confirmation) => {
                    if conf_end + 10 > s.len() || s.subrange(conf_end, conf_end + 10)
                        != ";identity="@ {
                        None
                    } else {
                        let id_end = semi_index(s, conf_end + 10);
                        match spec_from_hex(s.subrange(conf_end + 10, id_end)) {
                            None => None,
                            Some(identity) => {
                                if id_end + 9 > s.len() || s.subrange(id_end, id_end + 9)
                                    != ";pub_key="@ {
                                    None
                                } else {
                                    let pk_end = semi_index(s, id_end + 9);
                                    match spec_from_hex(s.subrange(id_end + 9, pk_end)) {
                                        None => None,
                                        Some(pub_key) => {
                                            if pk_end + 6 > s.len() || s.subrange(
                                                pk_end,
                                                pk_end + 6,
                                            ) != ";data="@ {
                                                None
                                            } else {
                                                let data = s.subrange(pk_end + 6, s.len() as int);
                                                Some(
                                                    TransactionV {
                                                        identity,
                                                        confirmation,
                                                        class,
                                                        data,
                                                        pub_key,
                                                    },
                                                )
                                            }
                                        },
                                    }
                                }
                            },
                        }
                    }
                },
            }
        }
    }
}

/// Decoding the encoding of a well-formed transaction gives the transaction
/// back.
pub proof fn lemma_tx_round_trip(t: TransactionV)
    requires
        wf_tx(t),
    ensures
        spec_decode_tx(spec_encode_tx(t)) == Some(t),
{
    reveal_strlit("class=");
    reveal_strlit(";confirmation=");
    reveal_strlit(";identity=");
    reveal_strlit(";pub_key=");
    reveal_strlit(";data=");
    reveal_strlit("domain");
    reveal_strlit("zone");
    let s = spec_encode_tx(t);
    let cl = t.class.len() as int;
    let h1 = spec_to_hex(t.confirmation).len() as int;
    let h2 = spec_to_hex(t.identity).len() as int;
    let h3 = spec_to_hex(t.pub_key).len() as int;
    lemma_to_hex_digits(t.confirmation);
    lemma_to_hex_digits(t.identity);
    lemma_to_hex_digits(t.pub_key);
    let p1 = 6 + cl;
    let p2 = p1 + 14;
    let p3 = p2 + h1;
    let p4 = p3 + 10;
    let p5 = p4 + h2;
    let p6 = p5 + 9;
    let p7 = p6 + h3;
    let p8 = p7 + 6;
    assert(s.len() == p8 + t.data.len());
    assert(s.subrange(0, 6) =~= "class="@);
    // The first `;` after the class prefix closes the class.
    assert(forall|k: int| 0 <= k < cl ==> t.class[k] != ';');
    assert(s[p1] == ';');
    assert(forall|k: int| 6 <= k < p1 ==> s[k] != ';');
    lemma_semi_index_at(s, 6, p1);
    assert(s.subrange(6, p1) =~= t.class);
    assert(s.subrange(p1, p2) =~= ";confirmation="@);
    // The confirmation digits run to the `;` of the identity key.
    assert(s[p3] == ';');
    assert(forall|k: int| p2 <= k < p3 ==> s[k] != ';');
    lemma_semi_index_at(s, p2, p3);
    assert(s.subrange(p2, p3) =~= spec_to_hex(t.confirmation));
    lemma_hex_round_trip(t.confirmation);
    assert(s.subrange(p3, p4) =~= ";identity="@);
    assert(s[p5] == ';');
    assert(forall|k: int| p4 <= k < p5 ==> s[k] != ';');
    lemma_semi_index_at(s, p4, p5);
    assert(s.subrange(p4, p5) =~= spec_to_hex(t.identity));
    lemma_hex_round_trip(t.identity);
    assert(s.subrange(p5, p6) =~= ";pub_key="@);
    assert(s[p7] == ';');
    assert(forall|k: int| p6 <= k < p7 ==> s[k] != ';');
    lemma_semi_index_at(s, p6, p7);
    assert(s.subrange(p6, p7) =~= spec_to_hex(t.pub_key));
    lemma_hex_round_trip(t.pub_key);
    assert(s.subrange(p7, p8) =~= ";data="@);
    assert(s.subrange(p8, s.len() as int) =~= t.data);
    assert(spec_decode_tx(s)->Some_0 =~= t);
}

impl Transaction {
    /// Writes the canonical text of the transaction.
    pub fn to_text(&self) -> (r: String)
        ensures
            r@ == spec_encode_tx(self@),
    {
        let mut s = String::new();
        s.append("class=");
        s.append(self.class.as_str());
        s.append(";confirmation=");
        let conf_hex = to_hex(self.confirmation.as_slice());
        s.append(conf_hex.as_str());
        s.append(";identity=");
        let id_hex = to_hex(self.identity.as_slice());
        s.append(id_hex.as_str());
        s.append(";pub_key=");
        let pk_hex = to_hex(self.pub_key.as_slice());
        s.append(pk_hex.as_str());
        s.append(";data=");
        s.append(self.data.as_str());
        s
    }

    /// Whether the identity is the hash of the name joined with the
    /// confirmation, which is what holding the name means.
    pub open spec fn spec_check_identity(&self, name: Seq<char>) -> bool {
        self@.identity == hash_of(vstd::utf8::encode_utf8(name) + self@.confirmation)
    }

    pub fn check_identity(&self, name: &str) -> (r: bool)
        ensures
            r == self.spec_check_identity(name@),
    {
        broadcast use vstd::string::is_ascii_spec_bytes;

        let mut buf: Vec<u8> = Vec::new();
        buf.extend_from_slice(name.as_bytes());
        buf.extend_from_slice(self.confirmation.as_slice());
        assert(buf@ =~= vstd::utf8::encode_utf8(name@) + self.confirmation@);
        let digest = blakeout_digest(buf.as_slice());
        let digest_bytes = Bytes::from_vec(digest);
        digest_bytes == self.identity
    }
}

/// Compares the text from `pos` on with `lit`: true when `lit` is exactly
/// there.
fn str_eq_at(s: &str, pos: usize, lit: &str) -> (r: bool)
    requires
        pos <= s@.len(),
    ensures
        r == (pos + lit@.len() <= s@.len() && s@.subrange(
            pos as int,
            pos + lit@.len(),
        ) == lit@),
{
    let n = s.unicode_len();
    let m = lit.unicode_len();
    if n - pos < m {
        return false;
    }
    let mut k: usize = 0;
    while k < m
        invariant
            k <= m,
            m == lit@.len(),
            n == s@.len(),
            pos + m <= n,
            forall|j: int| 0 <= j < k ==> s@[pos + j] == lit@[j],
        decreases m - k,
    {
        if s.get_char(pos + k) != lit.get_char(k) {
            assert(s@.subrange(pos as int, pos + lit@.len()) != lit@) by {
                assert(s@.subrange(pos as int, pos + lit@.len())[k as int] != lit@[k as int]);
            }
            return false;
        }
        k = k + 1;
    }
    assert(s@.subrange(pos as int, pos + lit@.len()) =~= lit@);
    true
}

/// Index of the first `;` at or after `from`, or the length when none.
fn find_semi(s: &str, from: usize) -> (r: usize)
    requires
        from <= s@.len(),
    ensures
        r == semi_index(s@, from as int),
        from <= r <= s@.len(),
{
    let n = s.unicode_len();
    let mut i: usize = from;
    while i < n
        invariant
            from <= i <= n,
            n == s@.len(),
            semi_index(s@, from as int) == semi_index(s@, i as int),
        decreases n - i,
    {
        if s.get_char(i) == ';' {
            return i;
        }
        i = i + 1;
    }
    i
}

/// Reads the canonical text of a transaction; `None` where the text does
/// not follow the format.
pub fn tx_from_text(s: &str) -> (r: Option<Transaction>)
    ensures
        match r {
            Some(t) => spec_decode_tx(s@) == Some(t@),
            None => spec_decode_tx(s@) is None,
        },
{
    let n = s.unicode_len();
    if !str_eq_at(s, 0, "class=") {
        proof {
            reveal_strlit("class=");
            if s@.len() >= 6 {
                assert(s@.subrange(0, 6) != "class="@);
            }
        }
        return None;
    }
    proof {
        reveal_strlit("class=");
        assert("class="@.len() == 6);
        lemma_semi_index_bounds(s@, 6);
    }
    let c_end = find_semi(s, 6);
    let class = s.substring_char(6, c_end);
    if !str_eq_at(s, c_end, ";confirmation=") {
        return None;
    }
    proof {
        reveal_strlit(";confirmation=");
        assert(";confirmation="@.len() == 14);
        lemma_semi_index_bounds(s@, c_end + 14);
    }
    let conf_end = find_semi(s, c_end + 14);
    let confirmation = match from_hex(s.substring_char(c_end + 14, conf_end)) {
        Some(v) => v,
        None => {
            return None;
        },
    };
    if !str_eq_at(s, conf_end, ";identity=") {
        return None;
    }
    proof {
        reveal_strlit(";identity=");
        assert(";identity="@.len() == 10);
        lemma_semi_index_bounds(s@, conf_end + 10);
    }
    let id_end = find_semi(s, conf_end + 10);
    let identity = match from_hex(s.substring_char(conf_end + 10, id_end)) {
        Some(v) => v,
        None => {
            return None;
        },
    };
    if !str_eq_at(s, id_end, ";pub_key=") {
        return None;
    }
    proof {
        reveal_strlit(";pub_key=");
        assert(";pub_key="@.len() == 9);
        lemma_semi_index_bounds(s@, id_end + 9);
    }
    let pk_end = find_semi(s, id_end + 9);
    let pub_key = match from_hex(s.substring_char(id_end + 9, pk_end)) {
        Some(v) => v,
        None => {
            return None;
        },
    };
    if !str_eq_at(s, pk_end, ";data=") {
        return None;
    }
    proof {
        reveal_strlit(";data=");
        assert(";data="@.len() == 6);
    }
    let data = s.substring_char(pk_end + 6, n);
    let t = Transaction {
        identity: Bytes::from_vec(identity),
        confirmation: Bytes::from_vec(confirmation),
        class: class.to_owned(),
        data: data.to_owned(),
        pub_key: Bytes::from_vec(pub_key),
    };
    proof {
        assert(spec_decode_tx(s@)->Some_0 =~= t@);
    }
    Some(t)
}

/// Metadata of a zone as recorded in a zone transaction's payload.
pub struct ZoneData {
    pub name: String,
    pub difficulty: u32,
}

impl Clone for ZoneData {
    fn clone(&self) -> (res: Self)
        ensures
            res.name@ == self.name@,
            res.difficulty == self.difficulty,
    {
        ZoneData { name: self.name.clone(), difficulty: self.difficulty }
    }
}

/// The name and difficulty that JSON zone metadata carries, or `None` where
/// the text is no such metadata.  JSON parsing is a function of the text
/// alone.
pub uninterp spec fn zone_meta_of(data: Seq<char>) -> Option<(Seq<char>, u32)>;

/// Relies on `serde_json::from_str::<serde_json::Value>` with `Value::get`,
/// `Value::as_str` and `Value::as_u64`: the `name` and `difficulty` fields
/// of the JSON text, where both are present and the difficulty fits `u32`.
#[verifier::external_body]
pub(crate) fn parse_zone_meta(data: &str) -> (r: Option<ZoneData>)
    ensures
        r is Some <==> zone_meta_of(data@) is Some,
        r is Some ==> r->Some_0.name@ == zone_meta_of(data@)->Some_0.0
            && r->Some_0.difficulty == zone_meta_of(data@)->Some_0.1,
{
    let value: serde_json::Value = match serde_json::from_str(data) {
        Ok(v) => v,
        Err(_) => return None,
    };
    let name = value.get("name")?.as_str()?.to_string();
    let difficulty = u32::try_from(value.get("difficulty")?.as_u64()?).ok()?;
    Some(ZoneData { name, difficulty })
}

/// The `zone` field that JSON domain metadata carries, or `None` where the
/// text is no such metadata.  JSON parsing is a function of the text alone.
pub uninterp spec fn domain_zone_of(data: Seq<char>) -> Option<Seq<char>>;

/// Relies on `serde_json::from_str::<serde_json::Value>` with `Value::get`
/// and `Value::as_str`: the `zone` field of the JSON text, where present.
#[verifier::external_body]
pub(crate) fn parse_domain_zone(data: &str) -> (r: Option<String>)
    ensures
        r is Some <==> domain_zone_of(data@) is Some,
        r is Some ==> r->Some_0@ == domain_zone_of(data@)->Some_0,
{
    let value: serde_json::Value = match serde_json::from_str(data) {
        Ok(v) => v,
        Err(_) => return None,
    };
    Some(value.get("zone")?.as_str()?.to_string())
}

} // verus!
