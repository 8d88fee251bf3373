use vstd::prelude::*;
use crate::decimal::{decimal, dec_text};

verus! {

/// A byte of the PKCE "unreserved" set: `A-Z a-z 0-9 - . _ ~`.
pub open spec fn is_unreserved(b: u8) -> bool {
    (65 <= b <= 90) || (97 <= b <= 122) || (48 <= b <= 57) || b == 45 || b == 46 || b == 95
        || b == 126
}

/// A character of the URL-safe base64 alphabet: `A-Z a-z 0-9 - _`.
pub open spec fn is_base64url(c: char) -> bool {
    ('A' <= c && c <= 'Z') || ('a' <= c && c <= 'z') || ('0' <= c && c <= '9') || c == '-'
        || c == '_'
}

/// The PKCE verifier grammar: 43 to 128 unreserved characters.
pub open spec fn valid_verifier(v: Seq<u8>) -> bool {
    43 <= v.len() <= 128 && forall|i: int| 0 <= i < v.len() ==> is_unreserved(#[trigger] v[i])
}

/// Bytes read as ASCII characters, one for one.
pub open spec fn ascii_text(v: Seq<u8>) -> Seq<char> {
    v.map_values(|b: u8| b as char)
}

/// The PKCE "S256" challenge of a verifier: base64url, unpadded, of its SHA-256 digest.
pub uninterp spec fn s256_of(v: Seq<u8>) -> Seq<char>;

/// Relies on pkce::code_challenge: SHA-256 of the bytes, then base64 with `+` and `/`
/// mapped to `-` and `_` and the padding dropped, so 43 URL-safe characters.
#[verifier::external_body]
fn s256(v: &Vec<u8>) -> (r: String)
    ensures
        r@ == s256_of(v@),
        r@.len() == 43,
        forall|i: int| 0 <= i < r@.len() ==> is_base64url(#[trigger] r@[i]),
{
    pkce::code_challenge(v)
}

/// Relies on pkce::code_verifier: `length` bytes drawn from the unreserved set; it
/// panics outside 43..=128.
#[verifier::external_body]
fn fresh_verifier(length: usize) -> (r: Vec<u8>)
    requires
        43 <= length <= 128,
    ensures
        r@.len() == length,
        forall|i: int| 0 <= i < r@.len() ==> is_unreserved(#[trigger] r@[i]),
{
    pkce::code_verifier(length)
}

/// Relies on rand::random: a value drawn from the thread-local generator; nothing
/// is known of it.
#[verifier::external_body]
fn random_id() -> (r: u64) {
    rand::random()
}

/// Relies on String::from_utf8: ASCII bytes are valid UTF-8, one character per byte.
#[verifier::external_body]
fn text_of_ascii(v: Vec<u8>) -> (r: String)
    requires
        forall|i: int| 0 <= i < v@.len() ==> #[trigger] v@[i] < 128,
    ensures
        r@ == ascii_text(v@),
{
    match String::from_utf8(v) {
        Ok(s) => s,
        Err(_) => String::new(),
    }
}


/// Why a stored challenge could not be brought back.
#[derive(Debug, Clone, Copy, PartialEq, Eq, Structural)]
pub enum ChallengeError {
    /// The stored payload is not a challenge record, belongs to another id, or holds
    /// a verifier outside the PKCE grammar.
    Corrupt,
}

/// The plain values that a challenge is stored as.
#[derive(Debug)]
pub struct ChallengeRecord {
    pub id: u64,
    pub discord_id: u64,
    pub code_verifier: Vec<u8>,
}

/// What the store handed back for a challenge's key.
#[derive(Debug)]
pub enum Lookup {
    /// No entry under the key.
    Absent,
    /// An entry that does not decode as a challenge record.
    Unreadable,
    /// An entry that decodes to this record.
    Present(ChallengeRecord),
}

/// One account-linking attempt: its session id (also the OAuth `state`), the chat
/// account that started it, and the PKCE verifier.
#[derive(Debug)]
pub struct Challenge {
    id: u64,
    discord_id: u64,
    code_verifier: Vec<u8>,
}

/// The mathematical content of a challenge.
pub struct ChallengeView {
    pub id: u64,
    pub discord_id: u64,
    pub code_verifier: Seq<u8>,
}

impl View for Challenge {
    type V = ChallengeView;

    closed spec fn view(&self) -> ChallengeView {
        ChallengeView { id: self.id, discord_id: self.discord_id, code_verifier: self.code_verifier@ }
    }
}

pub open spec fn record_view(r: ChallengeRecord) -> ChallengeView {
    ChallengeView { id: r.id, discord_id: r.discord_id, code_verifier: r.code_verifier@ }
}

/// A record read under the key of `id` is taken as that challenge.
pub open spec fn accepts(id: u64, r: ChallengeRecord) -> bool {
    r.id == id && valid_verifier(r.code_verifier@)
}

/// What looking up `id` yields, given what the store handed back.
pub open spec fn find_spec(id: u64, stored: Lookup) -> Result<Option<ChallengeView>, ChallengeError> {
    match stored {
        Lookup::Absent => Ok(None),
        Lookup::Unreadable => Err(ChallengeError::Corrupt),
        Lookup::Present(r) => if accepts(id, r) {
            Ok(Some(record_view(r)))
        } else {
            Err(ChallengeError::Corrupt)
        },
    }
}

pub open spec fn result_view(r: Result<Option<Challenge>, ChallengeError>) -> Result<
    Option<ChallengeView>,
    ChallengeError,
> {
    match r {
        Ok(Some(c)) => Ok(Some(c@)),
        Ok(None) => Ok(None),
        Err(e) => Err(e),
    }
}

/// The store key of the challenge `id`: `challenges:<id>`.
pub open spec fn key_text(id: u64) -> Seq<char> {
    "challenges:"@ + dec_text(id as nat)
}

/// The user-facing linking URL of the challenge `id`.
pub open spec fn link_text(id: u64) -> Seq<char> {
    "http://localhost:8000"@ + "/connect/lichess/"@ + dec_text(id as nat)
}

/// The authorization URL up to the code challenge.
pub open spec fn authorize_head() -> Seq<char> {
    "https://lichess.org/oauth?response_type=code&redirect_uri="@ + "http://localhost:8000"@
        + "/oauth/callback"@ + "&client_id="@ + "liro-bot-test"@
        + "&code_challenge_method=S256&code_challenge="@
}

/// The provider's authorization URL for the challenge `id` with code challenge `ch`.
pub open spec fn authorization_text(id: u64, ch: Seq<char>) -> Seq<char> {
    authorize_head() + ch + "&state="@ + dec_text(id as nat)
}

/// An exact test of `is_unreserved`.
fn unreserved_byte(b: u8) -> (r: bool)
    ensures
        r == is_unreserved(b),
{
    (65 <= b && b <= 90) || (97 <= b && b <= 122) || (48 <= b && b <= 57) || b == 45 || b == 46
        || b == 95 || b == 126
}

/// Whether `v` satisfies the PKCE verifier grammar.
pub fn is_valid_verifier(v: &Vec<u8>) -> (r: bool)
    ensures
        r == valid_verifier(v@),
{
    if v.len() < 43 || v.len() > 128 {
        return false;
    }
    let mut i: usize = 0;
    while i < v.len()
        invariant
            i <= v@.len(),
            forall|j: int| 0 <= j < i ==> is_unreserved(#[trigger] v@[j]),
        decreases v@.len() - i,
    {
        if !unreserved_byte(v[i]) {
            return false;
        }
        i = i + 1;
    }
    true
}

impl Challenge {
    #[verifier::type_invariant]
    spec fn verifier_in_grammar(&self) -> bool {
        valid_verifier(self.code_verifier@)
    }

    /// A challenge holds a verifier of the PKCE grammar.
    pub open spec fn inv(&self) -> bool {
        valid_verifier(self@.code_verifier)
    }

    /// Draws a fresh session id and a 128-character verifier for `discord_id`.
    pub fn new(discord_id: u64) -> (c: Challenge)
        ensures
            c.inv(),
            c@.discord_id == discord_id,
            c@.code_verifier.len() == 128,
    {
        let id = random_id();
        let code_verifier = fresh_verifier(128);
        Challenge { id, discord_id, code_verifier }
    }

    /// A challenge from its parts, refused where the verifier breaks the PKCE grammar.
    pub fn from_parts(id: u64, discord_id: u64, code_verifier: Vec<u8>) -> (r: Result<
        Challenge,
        ChallengeError,
    >)
        ensures
            r is Ok <==> valid_verifier(code_verifier@),
            r matches Ok(c) ==> c.inv() && c@ == (ChallengeView {
                id,
                discord_id,
                code_verifier: code_verifier@,
            }),
            r matches Err(e) ==> e == ChallengeError::Corrupt,
    {
        if is_valid_verifier(&code_verifier) {
            Ok(Challenge { id, discord_id, code_verifier })
        } else {
            Err(ChallengeError::Corrupt)
        }
    }

    /// The record this challenge is stored as.
    pub fn record(&self) -> (r: ChallengeRecord)
        ensures
            record_view(r) == self@,
    {
        ChallengeRecord {
            id: self.id,
            discord_id: self.discord_id,
            code_verifier: self.code_verifier.clone(),
        }
    }

    /// Brings back the challenge `id` from what the store held under its key: none
    /// where there was no entry, `Corrupt` where the entry is unreadable, is filed
    /// under another id, or holds a verifier outside the PKCE grammar.
    pub fn find(id: u64, stored: Lookup) -> (r: Result<Option<Challenge>, ChallengeError>)
        ensures
            result_view(r) == find_spec(id, stored),
            r matches Ok(Some(c)) ==> c.inv(),
    {
        match stored {
            Lookup::Absent => Ok(None),
            Lookup::Unreadable => Err(ChallengeError::Corrupt),
            Lookup::Present(rec) => {
                if rec.id != id {
                    return Err(ChallengeError::Corrupt);
                }
                match Challenge::from_parts(rec.id, rec.discord_id, rec.code_verifier) {
                    Ok(c) => Ok(Some(c)),
                    Err(e) => Err(e),
                }
            },
        }
    }

    /// The store key of the challenge `id`.
    pub fn key(id: u64) -> (r: String)
        ensures
            r@ == key_text(id),
    {
        let mut s = String::from_str("challenges:");
        let d = decimal(id);
        s.append(d.as_str());
        s
    }

    pub fn id(&self) -> (r: u64)
        ensures
            r == self@.id,
    {
        self.id
    }

    pub fn discord_id(&self) -> (r: u64)
        ensures
            r == self@.discord_id,
    {
        self.discord_id
    }

    /// The user-facing URL that starts the link.
    pub fn link(&self) -> (r: String)
        ensures
            r@ == link_text(self@.id),
    {
        let mut s = String::from_str("http://localhost:8000");
        s.append("/connect/lichess/");
        let d = decimal(self.id);
        s.append(d.as_str());
        s
    }

    /// The PKCE "S256" challenge of the verifier.
    pub fn code_challenge(&self) -> (r: String)
        ensures
            r@ == s256_of(self@.code_verifier),
            r@.len() == 43,
            forall|i: int| 0 <= i < r@.len() ==> is_base64url(#[trigger] r@[i]),
    {
        s256(&self.code_verifier)
    }

    /// The OAuth `state`: the session id in decimal.
    pub fn state(&self) -> (r: String)
        ensures
            r@ == dec_text(self@.id as nat),
    {
        decimal(self.id)
    }

    /// The provider's authorization URL: response type, redirect URI, client id,
    /// challenge method, code challenge and state, in that order.
    pub fn lichess_url(&self) -> (r: String)
        ensures
            r@ == authorization_text(self@.id, s256_of(self@.code_verifier)),
    {
        let mut s = String::from_str("https://lichess.org/oauth?response_type=code&redirect_uri=");
        s.append("http://localhost:8000");
        s.append("/oauth/callback");
        s.append("&client_id=");
        s.append("liro-bot-test");
        s.append("&code_challenge_method=S256&code_challenge=");
        let ch = self.code_challenge();
        s.append(ch.as_str());
        s.append("&state=");
        let st = self.state();
        s.append(st.as_str());
        s
    }

    /// The verifier as text, for the token exchange.
    pub fn code_verifier(&self) -> (r: String)
        ensures
            r@ == ascii_text(self@.code_verifier),
    {
        proof {
            use_type_invariant(self);
        }
        text_of_ascii(self.code_verifier.clone())
    }

    /// `Challenge<id=..., user_id=...>`.
    pub fn describe(&self) -> (r: String)
        ensures
            r@ == "Challenge<id="@ + dec_text(self@.id as nat) + ", user_id="@ + dec_text(
                self@.discord_id as nat,
            ) + ">"@,
    {
        let mut s = String::from_str("Challenge<id=");
        let a = decimal(self.id);
        s.append(a.as_str());
        s.append(", user_id=");
        let b = decimal(self.discord_id);
        s.append(b.as_str());
        s.append(">");
        s
    }
}


/// Reading back, under its own id, the record that a challenge is stored as gives
/// that same challenge: same id, same account, same verifier.
pub proof fn lemma_round_trip(c: ChallengeView, r: ChallengeRecord)
    requires
        valid_verifier(c.code_verifier),
        record_view(r) == c,
    ensures
        find_spec(c.id, Lookup::Present(r)) == Ok::<Option<ChallengeView>, ChallengeError>(
            Some(c),
        ),
{
}

/// The code challenge depends on the verifier alone: two challenges with the same
/// verifier carry the same code challenge, and authorization URLs that differ in
/// their session id alone.
pub proof fn lemma_challenge_deterministic(a: ChallengeView, b: ChallengeView)
    requires
        a.code_verifier == b.code_verifier,
    ensures
        s256_of(a.code_verifier) == s256_of(b.code_verifier),
        a.id == b.id ==> authorization_text(a.id, s256_of(a.code_verifier)) == authorization_text(
            b.id,
            s256_of(b.code_verifier),
        ),
{
}

/// A separator of URL syntax that no unreserved character equals.
pub open spec fn is_url_separator(c: char) -> bool {
    c == '&' || c == '=' || c == '?'
}

proof fn lemma_head_separators()
    ensures
        authorize_head().len() == 161,
        is_url_separator(authorize_head()[25]),
        is_url_separator(authorize_head()[44]),
        is_url_separator(authorize_head()[57]),
        is_url_separator(authorize_head()[94]),
        is_url_separator(authorize_head()[118]),
        is_url_separator(authorize_head()[145]),
        is_url_separator(authorize_head()[160]),
{
    reveal_strlit("https://lichess.org/oauth?response_type=code&redirect_uri=");
    reveal_strlit("http://localhost:8000");
    reveal_strlit("/oauth/callback");
    reveal_strlit("&client_id=");
    reveal_strlit("liro-bot-test");
    reveal_strlit("&code_challenge_method=S256&code_challenge=");
}

/// The authorization URL never holds a verifier of 44 or more characters: every
/// stretch of it that long crosses a URL separator, and a verifier holds none.
pub proof fn lemma_url_hides_verifier(id: u64, v: Seq<u8>, i: int)
    requires
        valid_verifier(v),
        v.len() >= 44,
        s256_of(v).len() == 43,
        0 <= i,
        i + v.len() <= authorization_text(id, s256_of(v)).len(),
    ensures
        authorization_text(id, s256_of(v)).subrange(i, i + v.len()) != ascii_text(v),
{
    let ch = s256_of(v);
    let url = authorization_text(id, ch);
    lemma_head_separators();
    crate::decimal::lemma_dec_text_digits(id as nat);
    reveal_strlit("&state=");
    let head = authorize_head();
    assert(url.len() <= 231);
    let j: int = if i <= 25 {
        25
    } else if i <= 44 {
        44
    } else if i <= 57 {
        57
    } else if i <= 94 {
        94
    } else if i <= 118 {
        118
    } else if i <= 145 {
        145
    } else if i <= 160 {
        160
    } else {
        204
    };
    assert(i <= j < i + v.len());
    if j < 161 {
        assert(url[j] == head[j]);
    } else {
        assert(url[j] == '&');
    }
    assert(is_url_separator(url[j]));
    let w = url.subrange(i, i + v.len());
    assert(w[j - i] == url[j]);
    let b = v[j - i];
    assert(is_unreserved(b));
    assert(ascii_text(v)[j - i] == b as char);
    assert(!is_url_separator(b as char));
}


/// The query parameters of the authorization URL, as name and value, in order.
pub open spec fn authorization_params(id: u64, ch: Seq<char>) -> Seq<(Seq<char>, Seq<char>)> {
    seq![
        ("response_type"@, "code"@),
        ("redirect_uri"@, "http://localhost:8000"@ + "/oauth/callback"@),
        ("client_id"@, "liro-bot-test"@),
        ("code_challenge_method"@, "S256"@),
        ("code_challenge"@, ch),
        ("state"@, dec_text(id as nat)),
    ]
}

/// Parameters written `name=value` and joined by `&`.
pub open spec fn query_text(ps: Seq<(Seq<char>, Seq<char>)>) -> Seq<char>
    decreases ps.len(),
{
    if ps.len() == 0 {
        Seq::empty()
    } else if ps.len() == 1 {
        ps[0].0 + "="@ + ps[0].1
    } else {
        query_text(ps.drop_last()) + "&"@ + ps.last().0 + "="@ + ps.last().1
    }
}

/// Holds none of `&`, `=`, `?`, so that a query splits back into its parameters.
pub open spec fn separator_free(s: Seq<char>) -> bool {
    forall|i: int| 0 <= i < s.len() ==> !is_url_separator(#[trigger] s[i])
}

/// The authorization URL is the endpoint followed by a query of six parameters,
/// none of whose names or values holds a separator; exactly one of them is named
/// `state`, and its value is the session id in decimal.
pub proof fn lemma_authorization_shape(id: u64, ch: Seq<char>)
    requires
        forall|i: int| 0 <= i < ch.len() ==> is_base64url(#[trigger] ch[i]),
    ensures
        authorization_text(id, ch) == "https://lichess.org/oauth?"@ + query_text(
            authorization_params(id, ch),
        ),
        authorization_params(id, ch).len() == 6,
        forall|k: int|
            0 <= k < 6 ==> (#[trigger] authorization_params(id, ch)[k].0 == "state"@ <==> k == 5),
        authorization_params(id, ch)[5].1 == dec_text(id as nat),
        forall|k: int|
            0 <= k < 6 ==> separator_free(#[trigger] authorization_params(id, ch)[k].0)
                && separator_free(authorization_params(id, ch)[k].1),
{
    let ps = authorization_params(id, ch);
    let d = dec_text(id as nat);
    crate::decimal::lemma_dec_text_digits(id as nat);
    reveal_strlit("https://lichess.org/oauth?response_type=code&redirect_uri=");
    reveal_strlit("http://localhost:8000");
    reveal_strlit("/oauth/callback");
    reveal_strlit("&client_id=");
    reveal_strlit("liro-bot-test");
    reveal_strlit("&code_challenge_method=S256&code_challenge=");
    reveal_strlit("&state=");
    reveal_strlit("https://lichess.org/oauth?");
    reveal_strlit("response_type");
    reveal_strlit("code");
    reveal_strlit("redirect_uri");
    reveal_strlit("client_id");
    reveal_strlit("code_challenge_method");
    reveal_strlit("S256");
    reveal_strlit("code_challenge");
    reveal_strlit("state");
    reveal_strlit("=");
    reveal_strlit("&");
    reveal_with_fuel(query_text, 6);
    assert(ps.drop_last().drop_last().drop_last().drop_last().drop_last() =~= seq![ps[0]]);
    assert(ps.drop_last().drop_last().drop_last().drop_last() =~= seq![ps[0], ps[1]]);
    assert(ps.drop_last().drop_last().drop_last() =~= seq![ps[0], ps[1], ps[2]]);
    assert(ps.drop_last().drop_last() =~= seq![ps[0], ps[1], ps[2], ps[3]]);
    assert(ps.drop_last() =~= seq![ps[0], ps[1], ps[2], ps[3], ps[4]]);
    assert(authorization_text(id, ch) =~= "https://lichess.org/oauth?"@ + query_text(ps));
    assert forall|k: int| 0 <= k < 6 implies separator_free(#[trigger] ps[k].0) && separator_free(
        ps[k].1,
    ) by {
        if k == 4 {
            assert forall|i: int| 0 <= i < ch.len() implies !is_url_separator(#[trigger] ch[i]) by {
                assert(is_base64url(ch[i]));
            }
        }
        if k == 5 {
            assert forall|i: int| 0 <= i < d.len() implies !is_url_separator(#[trigger] d[i]) by {
                assert(crate::decimal::is_digit(d[i]));
            }
        }
    }
}

} // verus!
