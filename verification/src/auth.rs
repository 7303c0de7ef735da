//! Authentication: password hashing with Argon2id, signed session tokens, the
//! choice of the token a request presents, and the registration rules.

use vstd::prelude::*;

use argon2::password_hash::{PasswordHasher, PasswordVerifier};
use vstd::string::StringSliceAdditionalSpecFns;

use crate::models::{AuthResponse, Claims, Timestamp, User};
use crate::text::{
    chars_of, has_prefix, starts_with_at, string_from_chars, trim, trim_chars,
};

verus! {

/// Hours a session token stays valid.
pub const TOKEN_EXPIRY_HOURS: i64 = 24;

// ===== Registration =====

/// Why a registration is refused.
#[derive(Clone, Copy, Debug, PartialEq, Eq, Structural)]
pub enum RegistrationError {
    InvalidEmail,
    ShortPassword,
}

impl RegistrationError {
    /// The message shown for the refusal.
    pub fn message(&self) -> (r: &'static str)
        ensures
            *self == RegistrationError::InvalidEmail ==> r@ == "Email inválido."@,
            *self == RegistrationError::ShortPassword ==> r@ == "A senha deve ter ao menos 8 caracteres."@,
    {
        match self {
            RegistrationError::InvalidEmail => "Email inválido.",
            RegistrationError::ShortPassword => "A senha deve ter ao menos 8 caracteres.",
        }
    }
}

/// An email must hold an `@` and at least 5 bytes; a password at least 8 bytes.
pub open spec fn registration_check(email: &str, password: &str) -> Result<(), RegistrationError> {
    if !email@.contains('@') || email.len() < 5 {
        Err(RegistrationError::InvalidEmail)
    } else if password.len() < 8 {
        Err(RegistrationError::ShortPassword)
    } else {
        Ok(())
    }
}

/// A registration is refused for its email exactly when the email has no `@`
/// or fewer than 5 bytes; with such an email accepted, it is refused for its
/// password exactly when the password has fewer than 8 bytes, however long it
/// is above that.
pub proof fn lemma_registration_refuses_only_bad_email_or_short_password(email: &str, password: &str)
    ensures
        registration_check(email, password) == Err::<(), RegistrationError>(RegistrationError::InvalidEmail) <==> (
        !email@.contains('@') || email.len() < 5),
        email@.contains('@') && email.len() >= 5 ==> (registration_check(email, password) == Ok::<(), RegistrationError>(())
            <==> password.len() >= 8),
        email@.contains('@') && email.len() >= 5 && password.len() < 8 ==> registration_check(email, password)
            == Err::<(), RegistrationError>(RegistrationError::ShortPassword),
{
}

/// Checks the email and password of a registration.
pub fn validate_registration(email: &str, password: &str) -> (r: Result<(), RegistrationError>)
    ensures
        r == registration_check(email, password),
{
    if !crate::text::contains_char(email, '@') || email.len() < 5 {
        return Err(RegistrationError::InvalidEmail);
    }
    if password.len() < 8 {
        return Err(RegistrationError::ShortPassword);
    }
    Ok(())
}

// ===== Token carried by a request =====

/// The token of an `Authorization` header value: what follows `Bearer `.
pub open spec fn bearer_token(header: Seq<char>) -> Option<Seq<char>> {
    if has_prefix(header, "Bearer "@) {
        Some(header.subrange(7, header.len() as int))
    } else {
        None
    }
}

/// The pieces of `s` between the occurrences of `sep`, as `str::split` gives them.
pub open spec fn split_on(s: Seq<char>, sep: char) -> Seq<Seq<char>>
    decreases s.len(),
{
    if s.len() == 0 {
        seq![Seq::empty()]
    } else {
        let rest = split_on(s.drop_last(), sep);
        if s.last() == sep {
            rest.push(Seq::empty())
        } else {
            rest.update(rest.len() - 1, rest.last().push(s.last()))
        }
    }
}

/// The value of the first piece that, trimmed, starts with `token=`.
pub open spec fn first_token_cookie(pieces: Seq<Seq<char>>) -> Option<Seq<char>>
    decreases pieces.len(),
{
    if pieces.len() == 0 {
        None
    } else if has_prefix(trim(pieces[0]), "token="@) {
        Some(trim(pieces[0]).subrange(6, trim(pieces[0]).len() as int))
    } else {
        first_token_cookie(pieces.drop_first())
    }
}

/// The `token` cookie of a `Cookie` header value.
pub open spec fn cookie_token(header: Seq<char>) -> Option<Seq<char>> {
    first_token_cookie(split_on(header, ';'))
}

/// The tokens a request presents, in the order they are tried: the bearer
/// token of the `Authorization` header, then the `token` cookie, each where
/// there is one.
pub open spec fn presented_tokens(authorization: Option<Seq<char>>, cookie: Option<Seq<char>>) -> Seq<Seq<char>> {
    let bearer = match authorization {
        Some(h) => match bearer_token(h) {
            Some(t) => seq![t],
            None => Seq::empty(),
        },
        None => Seq::empty(),
    };
    let from_cookie = match cookie {
        Some(c) => match cookie_token(c) {
            Some(t) => seq![t],
            None => Seq::empty(),
        },
        None => Seq::empty(),
    };
    bearer + from_cookie
}

proof fn lemma_split_nonempty(s: Seq<char>, sep: char)
    ensures
        split_on(s, sep).len() >= 1,
    decreases s.len(),
{
    if s.len() > 0 {
        lemma_split_nonempty(s.drop_last(), sep);
    }
}

proof fn lemma_first_token_append(a: Seq<Seq<char>>, b: Seq<Seq<char>>)
    ensures
        first_token_cookie(a + b) == match first_token_cookie(a) {
            Some(t) => Some(t),
            None => first_token_cookie(b),
        },
    decreases a.len(),
{
    if a.len() > 0 {
        assert((a + b).drop_first() =~= a.drop_first() + b);
        assert((a + b)[0] == a[0]);
        lemma_first_token_append(a.drop_first(), b);
    } else {
        assert(a + b =~= b);
    }
}

/// The characters of `cs[start..]`.
fn chars_after(cs: &Vec<char>, start: usize) -> (r: Vec<char>)
    requires
        start <= cs.len(),
    ensures
        r@ == cs@.subrange(start as int, cs.len() as int),
{
    let mut out: Vec<char> = Vec::new();
    let mut i = start;
    while i < cs.len()
        invariant
            start <= i <= cs.len(),
            out@ == cs@.subrange(start as int, i as int),
        decreases cs.len() - i,
    {
        out.push(cs[i]);
        i = i + 1;
        proof {
            assert(out@ =~= cs@.subrange(start as int, i as int));
        }
    }
    out
}

/// The token of an `Authorization` header value.
pub fn bearer_token_of(header: &str) -> (r: Option<String>)
    ensures
        match r {
            Some(t) => bearer_token(header@) == Some(t@),
            None => bearer_token(header@) is None,
        },
{
    let cs = chars_of(header);
    let prefix = chars_of("Bearer ");
    proof {
        reveal_strlit("Bearer ");
        assert(cs@.subrange(0, cs@.len() as int) =~= cs@);
    }
    if starts_with_at(&cs, 0, &prefix) {
        let rest = chars_after(&cs, 7);
        Some(string_from_chars(&rest))
    } else {
        None
    }
}

/// The `token` cookie of a `Cookie` header value.
pub fn cookie_token_of(header: &str) -> (r: Option<String>)
    ensures
        match r {
            Some(t) => cookie_token(header@) == Some(t@),
            None => cookie_token(header@) is None,
        },
{
    let cs = chars_of(header);
    let prefix = chars_of("token=");
    proof {
        reveal_strlit("token=");
    }
    let ghost s = cs@;
    let mut start: usize = 0;
    let mut i: usize = 0;
    let ghost mut done: Seq<Seq<char>> = Seq::empty();
    proof {
        assert(s.subrange(0, 0) =~= Seq::<char>::empty());
        assert(s.subrange(0, 0).subrange(0, 0) =~= Seq::<char>::empty());
        reveal_with_fuel(split_on, 1);
        assert(split_on(s.subrange(0, 0), ';') =~= seq![Seq::<char>::empty()]);
        assert(done.push(s.subrange(0, 0)) =~= seq![Seq::<char>::empty()]);
    }
    while i < cs.len()
        invariant
            s == cs@,
            s == header@,
            prefix@ == "token="@,
            start <= i <= cs.len(),
            split_on(s.subrange(0, i as int), ';') == done.push(s.subrange(start as int, i as int)),
            first_token_cookie(done) is None,
        decreases cs.len() - i,
    {
        proof {
            assert(s.subrange(0, i + 1).drop_last() =~= s.subrange(0, i as int));
            assert(s.subrange(0, i + 1).last() == s[i as int]);
        }
        if cs[i] == ';' {
            let piece = trim_chars(&cs, start, i);
            let ghost cur = s.subrange(start as int, i as int);
            proof {
                reveal_strlit("token=");
                assert(piece@.subrange(0, piece@.len() as int) =~= piece@);
            }
            if starts_with_at(&piece, 0, &prefix) {
                let value = chars_after(&piece, 6);
                proof {
                    lemma_split_nonempty(s.subrange(0, i as int), ';');
                    let whole = split_on(s, ';');
                    lemma_split_prefix(s, i as int + 1);
                    let upto = split_on(s.subrange(0, i + 1), ';');
                    assert(upto =~= done.push(cur).push(Seq::empty()));
                    let later = split_tail(s, i as int + 1);
                    assert(whole == done.push(cur) + later);
                    lemma_first_token_append(done, seq![cur]);
                    assert(done.push(cur) =~= done + seq![cur]);
                    reveal_with_fuel(first_token_cookie, 2);
                    assert(first_token_cookie(seq![cur]) == Some(value@));
                    lemma_first_token_append(done.push(cur), later);
                }
                return Some(string_from_chars(&value));
            }
            proof {
                reveal_with_fuel(first_token_cookie, 2);
                lemma_first_token_append(done, seq![cur]);
                assert(done.push(cur) =~= done + seq![cur]);
                done = done.push(cur);
                assert(s.subrange(i + 1, i + 1) =~= Seq::<char>::empty());
            }
            start = i + 1;
        } else {
            proof {
                let pre = s.subrange(0, i as int);
                lemma_split_nonempty(pre, ';');
                assert(s.subrange(start as int, i + 1) =~= s.subrange(start as int, i as int).push(s[i as int]));
                assert(done.push(s.subrange(start as int, i as int)).update(done.len() as int, s.subrange(start as int, i + 1))
                    =~= done.push(s.subrange(start as int, i + 1)));
            }
        }
        i = i + 1;
    }
    proof {
        assert(s.subrange(0, i as int) =~= s);
    }
    let piece = trim_chars(&cs, start, i);
    let ghost cur = s.subrange(start as int, i as int);
    proof {
        reveal_strlit("token=");
        assert(piece@.subrange(0, piece@.len() as int) =~= piece@);
        reveal_with_fuel(first_token_cookie, 2);
        lemma_first_token_append(done, seq![cur]);
        assert(done.push(cur) =~= done + seq![cur]);
    }
    if starts_with_at(&piece, 0, &prefix) {
        let value = chars_after(&piece, 6);
        Some(string_from_chars(&value))
    } else {
        None
    }
}

/// The pieces of `s` that follow the piece ending at `s[i - 1]`, where that
/// character is a separator.
spec fn split_tail(s: Seq<char>, i: int) -> Seq<Seq<char>> {
    split_on(s, ';').subrange(split_on(s.subrange(0, i), ';').len() - 1, split_on(s, ';').len() as int)
}

proof fn lemma_split_prefix(s: Seq<char>, i: int)
    requires
        0 < i <= s.len(),
        s[i - 1] == ';',
    ensures
        split_on(s.subrange(0, i), ';').len() <= split_on(s, ';').len(),
        split_on(s, ';') == split_on(s.subrange(0, i), ';').drop_last() + split_tail(s, i),
        split_on(s.subrange(0, i), ';').last() == Seq::<char>::empty(),
    decreases s.len() - i,
{
    lemma_split_nonempty(s.subrange(0, i), ';');
    assert(s.subrange(0, i).drop_last() =~= s.subrange(0, i - 1));
    if i == s.len() {
        assert(s.subrange(0, i) =~= s);
        let w = split_on(s, ';');
        assert(w.subrange(w.len() - 1, w.len() as int) =~= seq![w.last()]);
        assert(w =~= w.drop_last() + w.subrange(w.len() - 1, w.len() as int));
    } else {
        lemma_split_prefix(s.drop_last(), i);
        assert(s.drop_last().subrange(0, i) =~= s.subrange(0, i));
        let p = split_on(s.subrange(0, i), ';');
        let w0 = split_on(s.drop_last(), ';');
        let w = split_on(s, ';');
        lemma_split_nonempty(s.drop_last(), ';');
        if s.last() == ';' {
            assert(w == w0.push(Seq::empty()));
            assert(w.subrange(p.len() - 1, w.len() as int) =~= w0.subrange(p.len() - 1, w0.len() as int).push(Seq::empty()));
            assert(w =~= p.drop_last() + w.subrange(p.len() - 1, w.len() as int));
        } else {
            assert(w == w0.update(w0.len() - 1, w0.last().push(s.last())));
            assert(w =~= p.drop_last() + w.subrange(p.len() - 1, w.len() as int));
        }
    }
}

/// The tokens a request presents, in the order they are tried: the bearer
/// token of the `Authorization` header, then the `token` cookie.
pub fn candidate_tokens(authorization: Option<&str>, cookie: Option<&str>) -> (r: Vec<String>)
    ensures
        crate::quotes::texts_of(r@) == presented_tokens(opt_text(authorization), opt_text(cookie)),
{
    let mut out: Vec<String> = Vec::new();
    match authorization {
        Some(h) => match bearer_token_of(h) {
            Some(t) => out.push(t),
            None => {},
        },
        None => {},
    }
    let ghost first = out@;
    match cookie {
        Some(c) => match cookie_token_of(c) {
            Some(t) => out.push(t),
            None => {},
        },
        None => {},
    }
    proof {
        assert(crate::quotes::texts_of(out@) =~= presented_tokens(opt_text(authorization), opt_text(cookie)));
    }
    out
}

/// The first accepted claims among per-token outcomes, in order.
pub open spec fn first_some(outcomes: Seq<Option<Claims>>) -> Option<Claims>
    decreases outcomes.len(),
{
    if outcomes.len() == 0 {
        None
    } else {
        match outcomes[0] {
            Some(c) => Some(c),
            None => first_some(outcomes.drop_first()),
        }
    }
}

/// Picks, from the outcomes of validating each presented token in turn, the
/// claims of the first token that validated; refuses where none did.
pub fn select_accepted(outcomes: Vec<Option<Claims>>) -> (r: Result<AuthUser, AuthError>)
    ensures
        match r {
            Ok(u) => first_some(outcomes@) == Some(u.0),
            Err(_) => first_some(outcomes@) is None,
        },
{
    let ghost all = outcomes@;
    let mut i: usize = 0;
    proof {
        assert(all.subrange(0, all.len() as int) =~= all);
    }
    while i < outcomes.len()
        invariant
            i <= outcomes@.len(),
            outcomes@ == all,
            first_some(all) == first_some(all.subrange(i as int, all.len() as int)),
        decreases outcomes.len() - i,
    {
        if outcomes[i].is_some() {
            let mut rest = outcomes;
            let picked = rest.remove(i);
            return match picked {
                Some(c) => Ok(AuthUser(c)),
                None => Err(AuthError),
            };
        }
        proof {
            assert(all.subrange(i as int, all.len() as int).drop_first() =~= all.subrange(i + 1, all.len() as int));
        }
        i = i + 1;
    }
    proof {
        assert(all.subrange(i as int, all.len() as int) =~= Seq::<Option<Claims>>::empty());
    }
    Err(AuthError)
}

/// The claims of the first of `tokens` that validates with `secret` at `now`.
pub open spec fn first_valid(tokens: Seq<Seq<char>>, secret: Seq<u8>, now: int) -> Option<(Seq<char>, Seq<char>, int)>
    decreases tokens.len(),
{
    if tokens.len() == 0 {
        None
    } else {
        match token_validation_at(tokens[0], secret, now) {
            Some(c) => Some(c),
            None => first_valid(tokens.drop_first(), secret, now),
        }
    }
}

/// Whether an outcome is the validation of a token.
pub open spec fn outcome_of(o: Option<Claims>, v: Option<(Seq<char>, Seq<char>, int)>) -> bool {
    match o {
        Some(c) => v == Some(claims_view(c)),
        None => v is None,
    }
}

/// Claims in their (`sub`, `email`, `exp`) view, where there are any.
pub open spec fn option_claims_view(o: Option<Claims>) -> Option<(Seq<char>, Seq<char>, int)> {
    match o {
        Some(c) => Some(claims_view(c)),
        None => None,
    }
}

proof fn lemma_first_some_is_first_valid(outcomes: Seq<Option<Claims>>, tokens: Seq<Seq<char>>, secret: Seq<u8>, now: int)
    requires
        outcomes.len() == tokens.len(),
        forall|i: int| 0 <= i < tokens.len() ==> outcome_of(#[trigger] outcomes[i], token_validation_at(tokens[i], secret, now)),
    ensures
        option_claims_view(first_some(outcomes)) == first_valid(tokens, secret, now),
    decreases tokens.len(),
{
    if tokens.len() > 0 {
        assert(outcome_of(outcomes[0], token_validation_at(tokens[0], secret, now)));
        let o = outcomes.drop_first();
        let t = tokens.drop_first();
        assert forall|i: int| 0 <= i < t.len() implies outcome_of(#[trigger] o[i], token_validation_at(t[i], secret, now)) by {
            assert(o[i] == outcomes[i + 1]);
            assert(outcome_of(outcomes[i + 1], token_validation_at(tokens[i + 1], secret, now)));
        }
        lemma_first_some_is_first_valid(o, t, secret, now);
    }
}

/// Authenticates a request at `now` (seconds since the epoch) by the first
/// presented token, bearer before cookie, that validates with `secret`;
/// refuses only where none does.
pub fn authenticate_request(authorization: Option<&str>, cookie: Option<&str>, secret: &str, now: u64) -> (r: Result<
    AuthUser,
    AuthError,
>)
    ensures
        match r {
            Ok(u) => first_valid(presented_tokens(opt_text(authorization), opt_text(cookie)), secret.spec_bytes(), now as int)
                == Some(claims_view(u.0)),
            Err(_) => first_valid(presented_tokens(opt_text(authorization), opt_text(cookie)), secret.spec_bytes(), now as int) is None,
        },
{
    let candidates = candidate_tokens(authorization, cookie);
    let ghost p = presented_tokens(opt_text(authorization), opt_text(cookie));
    let mut outcomes: Vec<Option<Claims>> = Vec::new();
    let mut i: usize = 0;
    while i < candidates.len()
        invariant
            i <= candidates@.len(),
            outcomes@.len() == i,
            crate::quotes::texts_of(candidates@) == p,
            forall|j: int| 0 <= j < i ==> outcome_of(#[trigger] outcomes@[j], token_validation_at(p[j], secret.spec_bytes(), now as int)),
        decreases candidates.len() - i,
    {
        let o = match validate_token_at(candidates[i].as_str(), secret, now) {
            Ok(c) => Some(c),
            Err(_) => None,
        };
        proof {
            assert(p[i as int] == candidates@[i as int]@);
        }
        outcomes.push(o);
        i = i + 1;
    }
    proof {
        lemma_first_some_is_first_valid(outcomes@, p, secret.spec_bytes(), now as int);
    }
    select_accepted(outcomes)
}

/// A request with both a bearer token and a `token` cookie presents both, the
/// cookie's after the bearer's, so an unacceptable bearer token falls back to
/// the cookie.
pub proof fn lemma_cookie_token_is_tried_after_bearer(
    authorization: Seq<char>,
    cookie: Seq<char>,
    bearer: Seq<char>,
    from_cookie: Seq<char>,
)
    requires
        bearer_token(authorization) == Some(bearer),
        cookie_token(cookie) == Some(from_cookie),
    ensures
        presented_tokens(Some(authorization), Some(cookie)) == seq![bearer, from_cookie],
{
    assert(seq![bearer] + seq![from_cookie] =~= seq![bearer, from_cookie]);
}

/// The characters of an optional text.
pub open spec fn opt_text(s: Option<&str>) -> Option<Seq<char>> {
    match s {
        Some(t) => Some(t@),
        None => None,
    }
}

/// A request whose token was accepted, with the claims it carries.
pub struct AuthUser(pub Claims);

/// A request without an acceptable token.
#[derive(Debug)]
pub struct AuthError;


// ===== Passwords =====

/// What went wrong while hashing or checking a password.
#[derive(Clone, Copy, Debug, PartialEq, Eq, Structural)]
pub enum PasswordErrorKind {
    /// No random bytes could be had for the salt.
    Randomness,
    /// The salt could not be encoded.
    SaltEncoding,
    /// Argon2 refused to hash.
    Hashing,
    /// The stored hash is not a PHC string.
    InvalidHash,
}

/// A failure to hash or check a password, with the text of its cause as the
/// outside crate gave it.
#[derive(Clone, Debug, PartialEq, Eq)]
pub struct PasswordError {
    pub kind: PasswordErrorKind,
    pub cause: String,
}

/// The words a password failure of `kind` is reported with.
pub open spec fn password_error_prefix(kind: PasswordErrorKind) -> Seq<char> {
    match kind {
        PasswordErrorKind::Randomness => "Erro ao gerar bytes aleatórios"@,
        PasswordErrorKind::SaltEncoding => "Erro ao codificar salt"@,
        PasswordErrorKind::Hashing => "Falha ao gerar hash da senha"@,
        PasswordErrorKind::InvalidHash => "Hash inválido"@,
    }
}

impl PasswordError {
    /// The message shown for the failure: its words, a colon and the cause.
    pub fn message(&self) -> (r: String)
        ensures
            r@ == password_error_prefix(self.kind) + ": "@ + self.cause@,
    {
        let mut m = match self.kind {
            PasswordErrorKind::Randomness => "Erro ao gerar bytes aleatórios".to_owned(),
            PasswordErrorKind::SaltEncoding => "Erro ao codificar salt".to_owned(),
            PasswordErrorKind::Hashing => "Falha ao gerar hash da senha".to_owned(),
            PasswordErrorKind::InvalidHash => "Hash inválido".to_owned(),
        };
        m.append(": ");
        m.append(self.cause.as_str());
        m
    }
}

/// What `SaltString::encode_b64` returns on `bytes`, as text; `None` for an error.
pub uninterp spec fn salt_text(bytes: Seq<u8>) -> Option<Seq<char>>;

/// What `Argon2::default().hash_password` returns, as a PHC string, on the
/// bytes of a password and a salt given as B64 text; `None` for an error
/// (the salt text included).
pub uninterp spec fn argon2id_hash(password: Seq<u8>, salt: Seq<char>) -> Option<Seq<char>>;

/// Whether `Argon2::default().verify_password` accepts a password against a
/// PHC string; `None` where `PasswordHash::new` does not read the string.
pub uninterp spec fn argon2_check(password: Seq<u8>, hash: Seq<char>) -> Option<bool>;

/// Sixteen random bytes from `getrandom::fill`; on failure, the text of its
/// error. Nothing is said of the bytes but their number.
#[verifier::external_body]
fn random_salt_bytes() -> (r: Result<Vec<u8>, String>)
    ensures
        r matches Ok(b) ==> b@.len() == 16,
{
    let mut bytes = [0u8; 16];
    match getrandom::fill(&mut bytes) {
        Ok(()) => Ok(bytes.to_vec()),
        Err(e) => Err(e.to_string()),
    }
}

/// `password_hash::SaltString::encode_b64`, read back as text; on failure, the
/// text of its error.
#[verifier::external_body]
fn encode_salt(bytes: &[u8]) -> (r: Result<String, String>)
    ensures
        match r {
            Ok(t) => salt_text(bytes@) == Some(t@),
            Err(_) => salt_text(bytes@) is None,
        },
{
    match argon2::password_hash::SaltString::encode_b64(bytes) {
        Ok(salt) => Ok(salt.as_str().to_string()),
        Err(e) => Err(e.to_string()),
    }
}

/// `Argon2::default().hash_password` with the salt text read by
/// `SaltString::from_b64`, as a PHC string; on failure, the text of the error.
/// A hash it makes names Argon2id and is accepted by `verify_password` for the
/// same password.
#[verifier::external_body]
fn argon2_hash(password: &[u8], salt: &str) -> (r: Result<String, String>)
    ensures
        match r {
            Ok(h) => argon2id_hash(password@, salt@) == Some(h@) && argon2_check(password@, h@) == Some(true)
                && has_prefix(h@, "$argon2id$"@),
            Err(_) => argon2id_hash(password@, salt@) is None,
        },
{
    let salt = match argon2::password_hash::SaltString::from_b64(salt) {
        Ok(s) => s,
        Err(e) => return Err(e.to_string()),
    };
    match argon2::Argon2::default().hash_password(password, &salt) {
        Ok(h) => Ok(h.to_string()),
        Err(e) => Err(e.to_string()),
    }
}

/// `PasswordHash::new` on the stored hash, then whether
/// `Argon2::default().verify_password` accepts the password; where the hash
/// does not parse, the text of that error.
#[verifier::external_body]
fn argon2_verify(password: &[u8], hash: &str) -> (r: Result<bool, String>)
    ensures
        match r {
            Ok(b) => argon2_check(password@, hash@) == Some(b),
            Err(_) => argon2_check(password@, hash@) is None,
        },
{
    let parsed = match argon2::password_hash::PasswordHash::new(hash) {
        Ok(p) => p,
        Err(e) => return Err(e.to_string()),
    };
    Ok(argon2::Argon2::default().verify_password(password, &parsed).is_ok())
}

/// The Argon2id PHC string of `password` with the salt made of `salt`, or what
/// goes wrong.
pub open spec fn password_hash_of(password: Seq<u8>, salt: Seq<u8>) -> Result<Seq<char>, PasswordErrorKind> {
    match salt_text(salt) {
        Some(st) => match argon2id_hash(password, st) {
            Some(h) => Ok(h),
            None => Err(PasswordErrorKind::Hashing),
        },
        None => Err(PasswordErrorKind::SaltEncoding),
    }
}

/// Whether `password` matches the PHC string `hash`, or what goes wrong.
pub open spec fn password_check(password: Seq<u8>, hash: Seq<char>) -> Result<bool, PasswordErrorKind> {
    match argon2_check(password, hash) {
        Some(ok) => Ok(ok),
        None => Err(PasswordErrorKind::InvalidHash),
    }
}

/// A hashing result, with the hash as text and the failure by its kind.
pub open spec fn hash_outcome(r: Result<String, PasswordError>) -> Result<Seq<char>, PasswordErrorKind> {
    match r {
        Ok(t) => Ok(t@),
        Err(e) => Err(e.kind),
    }
}

/// A checking result, with the failure by its kind.
pub open spec fn check_outcome(r: Result<bool, PasswordError>) -> Result<bool, PasswordErrorKind> {
    match r {
        Ok(b) => Ok(b),
        Err(e) => Err(e.kind),
    }
}

/// Hashes `password` with Argon2id and the salt made of `salt`.
pub fn hash_password_with_salt(password: &str, salt: &[u8]) -> (r: Result<String, PasswordError>)
    ensures
        hash_outcome(r) == password_hash_of(password.spec_bytes(), salt@),
        r matches Ok(h) ==> password_check(password.spec_bytes(), h@) == Ok::<bool, PasswordErrorKind>(true),
        r matches Ok(h) ==> has_prefix(h@, "$argon2id$"@),
{
    let salt_b64 = match encode_salt(salt) {
        Ok(s) => s,
        Err(cause) => return Err(PasswordError { kind: PasswordErrorKind::SaltEncoding, cause }),
    };
    match argon2_hash(password.as_bytes(), salt_b64.as_str()) {
        Ok(h) => Ok(h),
        Err(cause) => Err(PasswordError { kind: PasswordErrorKind::Hashing, cause }),
    }
}

/// Hashes `password` with Argon2id and a fresh random 16-byte salt.
pub fn hash_password(password: &str) -> (r: Result<String, PasswordError>)
    ensures
        r matches Ok(h) ==> exists|salt: Seq<u8>| salt.len() == 16 && password_hash_of(password.spec_bytes(), salt) == Ok::<Seq<char>, PasswordErrorKind>(h@),
        r matches Ok(h) ==> password_check(password.spec_bytes(), h@) == Ok::<bool, PasswordErrorKind>(true),
        r matches Ok(h) ==> has_prefix(h@, "$argon2id$"@),
        r matches Err(e) ==> e.kind == PasswordErrorKind::Randomness || exists|salt: Seq<u8>|
            salt.len() == 16 && password_hash_of(password.spec_bytes(), salt) == Err::<Seq<char>, PasswordErrorKind>(e.kind),
{
    let salt = match random_salt_bytes() {
        Ok(b) => b,
        Err(cause) => return Err(PasswordError { kind: PasswordErrorKind::Randomness, cause }),
    };
    hash_password_with_salt(password, salt.as_slice())
}

/// Whether `password` matches the stored Argon2 hash.
pub fn verify_password(password: &str, hash: &str) -> (r: Result<bool, PasswordError>)
    ensures
        check_outcome(r) == password_check(password.spec_bytes(), hash@),
{
    match argon2_verify(password.as_bytes(), hash) {
        Ok(ok) => Ok(ok),
        Err(cause) => Err(PasswordError { kind: PasswordErrorKind::InvalidHash, cause }),
    }
}

/// A password is accepted against a hash made of it.
pub proof fn lemma_hash_accepts_its_password(password: Seq<u8>, hash: Seq<char>)
    requires
        argon2_check(password, hash) == Some(true),
    ensures
        password_check(password, hash) == Ok::<bool, PasswordErrorKind>(true),
{
}

// ===== Session tokens =====

/// What went wrong with a session token.
#[derive(Clone, Copy, Debug, PartialEq, Eq, Structural)]
pub enum TokenErrorKind {
    /// The expiration falls outside the range of dates, or the clock reads
    /// before the epoch.
    ClockOutOfRange,
    /// The token could not be encoded.
    Encoding,
    /// The token does not validate: bad signature, unreadable claims or expired.
    Invalid,
}

/// A failure to make or check a token, with the text of its cause.
#[derive(Clone, Debug, PartialEq, Eq)]
pub struct TokenError {
    pub kind: TokenErrorKind,
    pub cause: String,
}

/// The message a token failure is reported with.
pub open spec fn token_error_message(kind: TokenErrorKind, cause: Seq<char>) -> Seq<char> {
    match kind {
        TokenErrorKind::ClockOutOfRange => "Invalid timestamp"@,
        TokenErrorKind::Encoding => "Falha ao gerar JWT: "@ + cause,
        TokenErrorKind::Invalid => "Token inválido: "@ + cause,
    }
}

impl TokenError {
    /// The message shown for the failure: for a bad clock its words alone,
    /// otherwise its words, a colon and the cause.
    pub fn message(&self) -> (r: String)
        ensures
            r@ == token_error_message(self.kind, self.cause@),
    {
        match self.kind {
            TokenErrorKind::ClockOutOfRange => "Invalid timestamp".to_owned(),
            TokenErrorKind::Encoding => {
                let mut m = "Falha ao gerar JWT: ".to_owned();
                m.append(self.cause.as_str());
                m
            },
            TokenErrorKind::Invalid => {
                let mut m = "Token inválido: ".to_owned();
                m.append(self.cause.as_str());
                m
            },
        }
    }
}

/// The lower-case hexadecimal digit of `n`.
pub open spec fn hex_digit(n: int) -> char {
    if n < 10 {
        (48 + n) as char
    } else {
        (87 + n) as char
    }
}

/// The `k`-th hexadecimal digit (from the most significant) of a 128-bit value.
pub open spec fn uuid_nibble(id: int, k: int) -> int {
    (id / vstd::arithmetic::power::pow(16, (31 - k) as nat)) % 16
}

/// The hexadecimal digit that the character at position `i` of the text shows.
pub open spec fn uuid_digit_index(i: int) -> int {
    if i < 8 {
        i
    } else if i < 13 {
        i - 1
    } else if i < 18 {
        i - 2
    } else if i < 23 {
        i - 3
    } else {
        i - 4
    }
}

/// The hyphenated lower-case text of a UUID, `xxxxxxxx-xxxx-xxxx-xxxx-xxxxxxxxxxxx`.
pub open spec fn hyphenated_uuid(id: int) -> Seq<char> {
    Seq::new(
        36,
        |i: int|
            if i == 8 || i == 13 || i == 18 || i == 23 {
                '-'
            } else {
                hex_digit(uuid_nibble(id, uuid_digit_index(i)))
            },
    )
}

/// `uuid::Uuid::from_u128(id).to_string()`: the hyphenated lower-case text.
#[verifier::external_body]
fn uuid_text(id: u128) -> (r: String)
    ensures
        r@ == hyphenated_uuid(id as int),
{
    uuid::Uuid::from_u128(id).to_string()
}

/// What `checked_add_signed(TimeDelta::hours(hours))` on the UTC date of
/// (`secs`, `nanos`) gives, as (seconds, nanoseconds); `None` out of range.
pub uninterp spec fn chrono_add_hours(secs: int, nanos: int, hours: int) -> Option<(int, int)>;

/// What `jsonwebtoken::encode` returns for the HS256 default header, the claims
/// `{"sub": sub, "email": email, "exp": exp}` in that order, and the secret.
pub uninterp spec fn jwt_hs256(sub: Seq<char>, email: Seq<char>, exp: int, secret: Seq<u8>) -> Option<Seq<char>>;

/// The (`sub`, `email`, `exp`) that `jsonwebtoken::decode` reads from `token`
/// with a key made of `secret` and `Validation::default()` with its expiry check
/// turned off (HS256, signature checked, `exp` present); `None` where it errs or
/// where the claims lack a text `sub`, a text `email` or an integer `exp` that a
/// `usize` holds.
pub uninterp spec fn jwt_hs256_claims(token: Seq<char>, secret: Seq<u8>) -> Option<(Seq<char>, Seq<char>, int)>;

/// `jsonwebtoken::decode` with `Validation::default()`, its expiry check
/// turned off, and a key made of `secret`; then `sub`, `email` and `exp` read
/// from the claims by `serde_json::from_value`. On failure, the text of the error.
#[verifier::external_body]
fn jwt_decode(token: &str, secret: &[u8]) -> (r: Result<(String, String, usize), String>)
    ensures
        match r {
            Ok((s, e, x)) => jwt_hs256_claims(token@, secret@) == Some((s@, e@, x as int)),
            Err(_) => jwt_hs256_claims(token@, secret@) is None,
        },
{
    let mut validation = jsonwebtoken::Validation::default();
    validation.validate_exp = false;
    let key = jsonwebtoken::DecodingKey::from_secret(secret);
    let claims = jsonwebtoken::decode::<serde_json::Value>(token, &key, &validation).map_err(|e| e.to_string())?.claims;
    let sub: String = serde_json::from_value(claims["sub"].clone()).map_err(|e| e.to_string())?;
    let email: String = serde_json::from_value(claims["email"].clone()).map_err(|e| e.to_string())?;
    let exp: usize = serde_json::from_value(claims["exp"].clone()).map_err(|e| e.to_string())?;
    Ok((sub, email, exp))
}

/// The system clock's reading.
#[verifier::external_type_specification]
#[verifier::external_body]
pub struct ExSystemTime(std::time::SystemTime);

/// `std::time::SystemTime::now()`: the reading of the system clock.
#[verifier::external_body]
fn system_time_now() -> (r: std::time::SystemTime) {
    std::time::SystemTime::now()
}

/// `SystemTime::duration_since(UNIX_EPOCH)`, as whole seconds and the
/// nanoseconds beyond them; `None` where `t` is before the epoch.
#[verifier::external_body]
fn since_epoch(t: &std::time::SystemTime) -> (r: Option<(u64, u32)>)
    ensures
        r matches Some((_, nanos)) ==> nanos < 1_000_000_000,
{
    match t.duration_since(std::time::UNIX_EPOCH) {
        Ok(d) => Some((d.as_secs(), d.subsec_nanos())),
        Err(_) => None,
    }
}

/// The current time; `None` where the clock reads before the epoch or beyond
/// the seconds an `i64` holds.
fn utc_now() -> (r: Option<Timestamp>)
    ensures
        r matches Some(t) ==> t.secs >= 0 && t.nanos < 1_000_000_000,
{
    let now = system_time_now();
    match since_epoch(&now) {
        Some((secs, nanos)) => if secs <= i64::MAX as u64 {
            Some(Timestamp { secs: secs as i64, nanos })
        } else {
            None
        },
        None => None,
    }
}

/// `DateTime::<Utc>::from_timestamp` then `checked_add_signed(TimeDelta::hours(hours))`.
/// Outside a leap second the result is `hours` hours of seconds later, with the
/// same nanoseconds.
#[verifier::external_body]
fn checked_add_hours(at: Timestamp, hours: i64) -> (r: Option<Timestamp>)
    requires
        0 <= hours <= 1_000_000,
    ensures
        match r {
            Some(t) => chrono_add_hours(at.secs as int, at.nanos as int, hours as int) == Some((t.secs as int, t.nanos as int)),
            None => chrono_add_hours(at.secs as int, at.nanos as int, hours as int) is None,
        },
        at.nanos < 1_000_000_000 ==> (r matches Some(t) ==> t.secs == at.secs + 3600 * hours && t.nanos == at.nanos),
{
    let start = match chrono::DateTime::from_timestamp(at.secs, at.nanos) {
        Some(d) => d,
        None => return None,
    };
    match start.checked_add_signed(chrono::TimeDelta::hours(hours)) {
        Some(d) => Some(Timestamp { secs: d.timestamp(), nanos: d.timestamp_subsec_nanos() }),
        None => None,
    }
}

/// `jsonwebtoken::encode` with the default header (HS256), the claims object
/// `{"sub", "email", "exp"}` and a key made of `secret`; on failure, the text of
/// the error. What it encodes decodes back to the same claims under the same
/// secret.
#[verifier::external_body]
fn jwt_encode(sub: &str, email: &str, exp: usize, secret: &[u8]) -> (r: Result<String, String>)
    ensures
        match r {
            Ok(t) => jwt_hs256(sub@, email@, exp as int, secret@) == Some(t@),
            Err(_) => jwt_hs256(sub@, email@, exp as int, secret@) is None,
        },
        r matches Ok(t) ==> jwt_hs256_claims(t@, secret@) == Some((sub@, email@, exp as int)),
{
    let mut claims = serde_json::Map::new();
    claims.insert("sub".to_string(), serde_json::Value::from(sub));
    claims.insert("email".to_string(), serde_json::Value::from(email));
    claims.insert("exp".to_string(), serde_json::Value::from(exp));
    let key = jsonwebtoken::EncodingKey::from_secret(secret);
    jsonwebtoken::encode(&jsonwebtoken::Header::default(), &serde_json::Value::Object(claims), &key).map_err(|e| e.to_string())
}

/// The expiration of a token made at `now`: the seconds of `now` plus the
/// validity, as a `usize`.
pub open spec fn expiration_at(now: Timestamp) -> Option<usize> {
    match chrono_add_hours(now.secs as int, now.nanos as int, TOKEN_EXPIRY_HOURS as int) {
        Some(t) => Some(t.0 as i64 as usize),
        None => None,
    }
}

/// The token for `user`, signed with `secret`, made at `now`, or what goes wrong.
pub open spec fn token_at(user: User, secret: &str, now: Timestamp) -> Result<Seq<char>, TokenErrorKind> {
    match expiration_at(now) {
        Some(exp) => match jwt_hs256(hyphenated_uuid(user.id as int), user.email@, exp as int, secret.spec_bytes()) {
            Some(t) => Ok(t),
            None => Err(TokenErrorKind::Encoding),
        },
        None => Err(TokenErrorKind::ClockOutOfRange),
    }
}

/// A token result, with the token as text and the failure by its kind.
pub open spec fn token_outcome(r: Result<String, TokenError>) -> Result<Seq<char>, TokenErrorKind> {
    match r {
        Ok(t) => Ok(t@),
        Err(e) => Err(e.kind),
    }
}

/// The (`sub`, `email`, `exp`) of the token for `user` made at `now`.
pub open spec fn token_claims(user: User, now: Timestamp) -> (Seq<char>, Seq<char>, int) {
    (hyphenated_uuid(user.id as int), user.email@, expiration_at(now).unwrap() as int)
}

/// The claims of a token for `user` expiring at `exp`.
pub fn claims_for(user: &User, exp: usize) -> (r: Claims)
    ensures
        r.sub@ == hyphenated_uuid(user.id as int),
        r.email@ == user.email@,
        r.exp == exp,
{
    Claims { sub: uuid_text(user.id), email: user.email.clone(), exp }
}

/// The signed token for `user` made at `now`, valid for `TOKEN_EXPIRY_HOURS`.
pub fn generate_token_at(user: &User, secret: &str, now: Timestamp) -> (r: Result<String, TokenError>)
    requires
        expiration_at(now) is Some,
    ensures
        token_outcome(r) == token_at(*user, secret, now),
        now.nanos < 1_000_000_000 ==> (r is Ok ==> expiration_at(now) == Some(
            (now.secs + 3600 * TOKEN_EXPIRY_HOURS) as i64 as usize,
        )),
        r matches Ok(t) ==> jwt_hs256_claims(t@, secret.spec_bytes()) == Some(token_claims(*user, now)),
{
    let exp = match checked_add_hours(now, TOKEN_EXPIRY_HOURS) {
        Some(t) => t.secs as usize,
        None => return Err(TokenError { kind: TokenErrorKind::ClockOutOfRange, cause: String::new() }),
    };
    let claims = claims_for(user, exp);
    match jwt_encode(claims.sub.as_str(), claims.email.as_str(), claims.exp, secret.as_bytes()) {
        Ok(t) => Ok(t),
        Err(cause) => Err(TokenError { kind: TokenErrorKind::Encoding, cause }),
    }
}

/// The signed token for `user`, valid for `TOKEN_EXPIRY_HOURS` from now.
pub fn generate_token(user: &User, secret: &str) -> (r: Result<String, TokenError>)
    ensures
        r matches Ok(t) ==> exists|now: Timestamp|
            #![trigger token_at(*user, secret, now)]
            now.secs >= 0 && now.nanos < 1_000_000_000
            && token_at(*user, secret, now) == Ok::<Seq<char>, TokenErrorKind>(t@)
            && expiration_at(now) == Some((now.secs + 3600 * TOKEN_EXPIRY_HOURS) as i64 as usize)
            && jwt_hs256_claims(t@, secret.spec_bytes()) == Some(token_claims(*user, now)),
        r matches Err(e) ==> e.kind != TokenErrorKind::Invalid,
{
    let now = match utc_now() {
        Some(n) => n,
        None => return Err(TokenError { kind: TokenErrorKind::ClockOutOfRange, cause: String::new() }),
    };
    match checked_add_hours(now, TOKEN_EXPIRY_HOURS) {
        Some(_) => {},
        None => return Err(TokenError { kind: TokenErrorKind::ClockOutOfRange, cause: String::new() }),
    }
    let r = generate_token_at(user, secret, now);
    proof {
        if r is Ok {
            assert(token_at(*user, secret, now) == token_outcome(r));
        }
    }
    r
}

/// Seconds past its expiry during which a token is still accepted
/// (`Validation::default().leeway`).
pub const TOKEN_LEEWAY_SECS: u64 = 60;

/// The claims `token` yields at `now` (seconds since the epoch): those it
/// carries under `secret`, unless its expiry plus the leeway lies before `now`.
pub open spec fn token_validation_at(token: Seq<char>, secret: Seq<u8>, now: int) -> Option<(Seq<char>, Seq<char>, int)> {
    match jwt_hs256_claims(token, secret) {
        Some(c) => if now <= c.2 + TOKEN_LEEWAY_SECS {
            Some(c)
        } else {
            None
        },
        None => None,
    }
}

/// The (`sub`, `email`, `exp`) of claims.
pub open spec fn claims_view(c: Claims) -> (Seq<char>, Seq<char>, int) {
    (c.sub@, c.email@, c.exp as int)
}

/// Checks a token made with `secret` (signature and claims, then expiry with
/// the leeway) at `now`, seconds since the epoch, and reads its claims.
pub fn validate_token_at(token: &str, secret: &str, now: u64) -> (r: Result<Claims, TokenError>)
    ensures
        match r {
            Ok(c) => token_validation_at(token@, secret.spec_bytes(), now as int) == Some(claims_view(c)),
            Err(e) => token_validation_at(token@, secret.spec_bytes(), now as int) is None && e.kind == TokenErrorKind::Invalid,
        },
        jwt_hs256_claims(token@, secret.spec_bytes()) is Some && token_validation_at(token@, secret.spec_bytes(), now as int) is None
            ==> (r matches Err(e) && e.cause@ == "ExpiredSignature"@),
{
    match jwt_decode(token, secret.as_bytes()) {
        Ok((sub, email, exp)) => {
            if (now as u128) <= (exp as u128) + (TOKEN_LEEWAY_SECS as u128) {
                Ok(Claims { sub, email, exp })
            } else {
                Err(TokenError { kind: TokenErrorKind::Invalid, cause: "ExpiredSignature".to_owned() })
            }
        },
        Err(cause) => Err(TokenError { kind: TokenErrorKind::Invalid, cause }),
    }
}

/// The system clock, as whole seconds since the epoch; `None` before it.
fn clock_secs() -> (r: Option<u64>) {
    let now = system_time_now();
    match since_epoch(&now) {
        Some((secs, _)) => Some(secs),
        None => None,
    }
}

/// Checks a token made with `secret` (signature and expiry) against the system
/// clock and reads its claims.
pub fn validate_token(token: &str, secret: &str) -> (r: Result<Claims, TokenError>)
    ensures
        r matches Ok(c) ==> exists|now: u64| #[trigger] token_validation_at(token@, secret.spec_bytes(), now as int) == Some(claims_view(c)),
        r matches Err(e) ==> e.kind == TokenErrorKind::Invalid,
        jwt_hs256_claims(token@, secret.spec_bytes()) is None ==> r is Err,
{
    match clock_secs() {
        Some(now) => validate_token_at(token, secret, now),
        None => Err(TokenError { kind: TokenErrorKind::Invalid, cause: "Time went backwards".to_owned() }),
    }
}

/// A token made at `now` is accepted with its claims until a day, plus the
/// leeway, has passed.
pub proof fn lemma_token_is_valid_for_a_day(user: User, secret: Seq<u8>, now: Timestamp, token: Seq<char>, later: int)
    requires
        jwt_hs256_claims(token, secret) == Some(token_claims(user, now)),
        expiration_at(now) == Some((now.secs + 3600 * TOKEN_EXPIRY_HOURS) as i64 as usize),
        0 <= now.secs + 3600 * TOKEN_EXPIRY_HOURS <= usize::MAX,
        now.secs + 3600 * TOKEN_EXPIRY_HOURS <= i64::MAX,
        later <= now.secs + 3600 * TOKEN_EXPIRY_HOURS + TOKEN_LEEWAY_SECS,
    ensures
        token_validation_at(token, secret, later) == Some(token_claims(user, now)),
        token_claims(user, now).2 == now.secs + 3600 * TOKEN_EXPIRY_HOURS,
{
    let e: int = now.secs + 3600 * TOKEN_EXPIRY_HOURS;
    assert(e as i64 == e);
    assert((e as i64) as usize == e);
}

/// Why a login is refused.
#[derive(Clone, Debug, PartialEq, Eq)]
pub enum LoginError {
    /// Unknown email, wrong password or unreadable stored hash.
    InvalidCredentials,
    /// The token could not be made.
    Token(TokenError),
}

/// Logs `user` (the one stored under the email given, if any) in with
/// `password`: on a match, a fresh token and the email.
pub fn authenticate(user: Option<&User>, password: &str, secret: &str) -> (r: Result<AuthResponse, LoginError>)
    ensures
        user is None ==> r == Err::<AuthResponse, LoginError>(LoginError::InvalidCredentials),
        user matches Some(u) ==> {
            &&& password_check(password.spec_bytes(), u.password_hash@) != Ok::<bool, PasswordErrorKind>(true)
                ==> r == Err::<AuthResponse, LoginError>(LoginError::InvalidCredentials)
            &&& password_check(password.spec_bytes(), u.password_hash@) == Ok::<bool, PasswordErrorKind>(true) ==> match r {
                Ok(resp) => resp.email@ == u.email@ && exists|now: Timestamp|
                    #![trigger token_at(*u, secret, now)]
                    now.secs >= 0 && now.nanos < 1_000_000_000
                    && token_at(*u, secret, now) == Ok::<Seq<char>, TokenErrorKind>(resp.token@)
                    && expiration_at(now) == Some((now.secs + 3600 * TOKEN_EXPIRY_HOURS) as i64 as usize)
                    && jwt_hs256_claims(resp.token@, secret.spec_bytes()) == Some(token_claims(*u, now)),
                Err(e) => e matches LoginError::Token(te) && te.kind != TokenErrorKind::Invalid,
            }
        },
{
    let u = match user {
        Some(u) => u,
        None => return Err(LoginError::InvalidCredentials),
    };
    match verify_password(password, u.password_hash.as_str()) {
        Ok(true) => {},
        _ => return Err(LoginError::InvalidCredentials),
    }
    match generate_token(u, secret) {
        Ok(token) => Ok(AuthResponse { token, email: u.email.clone() }),
        Err(e) => Err(LoginError::Token(e)),
    }
}

} // verus!
