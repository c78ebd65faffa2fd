//! Who may do what: three roles, each with its token.

use vstd::prelude::*;
use vstd::string::StringExecFns;
use crate::serve::{refuses, AppError};

verus! {

/// What the holder of a token may do.
#[derive(Debug, Clone, Copy, PartialEq, Eq, Structural)]
pub enum AuthRole {
    /// Read.
    Readonly,
    /// Write, and read.
    Readwrite,
    /// Compact, write, and read.
    Admin,
}

impl AuthRole {
    /// Roles in order: each may do what those before it may.
    pub open spec fn level(self) -> int {
        match self {
            AuthRole::Readonly => 0,
            AuthRole::Readwrite => 1,
            AuthRole::Admin => 2,
        }
    }

    /// Whether the role is enough where another one is asked for.
    pub fn allows(self, needed: AuthRole) -> (r: bool)
        ensures
            r == (self.level() >= needed.level()),
    {
        match needed {
            AuthRole::Readonly => true,
            AuthRole::Readwrite => self != AuthRole::Readonly,
            AuthRole::Admin => self == AuthRole::Admin,
        }
    }
}

/// The tokens of the three roles; none set means that no one is asked for one.
#[derive(Debug, Clone)]
pub struct AuthTokens {
    pub admin: Option<Vec<u8>>,
    pub readwrite: Option<Vec<u8>>,
    pub readonly: Option<Vec<u8>>,
}

/// The tokens as sequences of bytes.
#[verifier::ext_equal]
pub struct TokensView {
    pub admin: Option<Seq<u8>>,
    pub readwrite: Option<Seq<u8>>,
    pub readonly: Option<Seq<u8>>,
}

pub open spec fn token_view(t: Option<Vec<u8>>) -> Option<Seq<u8>> {
    match t {
        Some(v) => Some(v@),
        None => None,
    }
}

impl View for AuthTokens {
    type V = TokensView;

    open spec fn view(&self) -> TokensView {
        TokensView {
            admin: token_view(self.admin),
            readwrite: token_view(self.readwrite),
            readonly: token_view(self.readonly),
        }
    }
}

/// The words before the token.
pub open spec fn bearer() -> Seq<u8> {
    seq![66u8, 101, 97, 114, 101, 114, 32]
}

/// Whether a header holds a token.
pub open spec fn presents(header: Option<Seq<u8>>, token: Option<Seq<u8>>) -> bool {
    header is Some && token is Some && header->Some_0 == bearer() + token->Some_0
}

/// The role that a header gives: the highest whose token it holds.
pub open spec fn role_of(tokens: TokensView, header: Option<Seq<u8>>) -> Option<AuthRole> {
    if presents(header, tokens.admin) {
        Some(AuthRole::Admin)
    } else if presents(header, tokens.readwrite) {
        Some(AuthRole::Readwrite)
    } else if presents(header, tokens.readonly) {
        Some(AuthRole::Readonly)
    } else {
        None
    }
}

pub open spec fn no_tokens(tokens: TokensView) -> bool {
    tokens.admin is None && tokens.readwrite is None && tokens.readonly is None
}

/// What is answered where no valid token was given.
pub open spec fn unauthorized_text() -> Seq<char> {
    "missing or invalid Authorization Bearer token"@
}

/// What is answered where the role is not enough.
pub open spec fn forbidden_text() -> Seq<char> {
    "role not permitted for this endpoint"@
}

/// The refusal of a request that asks for a role, if it is refused: 401 without a valid token,
/// 403 with a role that is not enough. Where no token is set at all, no one is refused.
pub open spec fn refusal(
    tokens: TokensView,
    header: Option<Seq<u8>>,
    needed: AuthRole,
) -> Option<(u16, Seq<char>)> {
    if no_tokens(tokens) {
        None
    } else {
        match role_of(tokens, header) {
            None => Some((401u16, unauthorized_text())),
            Some(role) => if role.level() >= needed.level() {
                None
            } else {
                Some((403u16, forbidden_text()))
            },
        }
    }
}

/// Whether two byte strings are equal, looked at to the end whatever they hold.
pub fn constant_eq(a: &[u8], b: &[u8]) -> (r: bool)
    ensures
        r == (a@ == b@),
{
    if a.len() != b.len() {
        return false;
    }
    let mut diff: u8 = 0;
    let mut i: usize = 0;
    proof {
        assert(a@.take(0) =~= b@.take(0));
    }
    while i < a.len()
        invariant
            a@.len() == b@.len(),
            i <= a@.len(),
            diff == 0 <==> a@.take(i as int) == b@.take(i as int),
        decreases a@.len() - i,
    {
        let x: u8 = a[i];
        let y: u8 = b[i];
        proof {
            assert((diff | (x ^ y)) == 0 <==> diff == 0 && x == y) by (bit_vector);
            let p = a@.take(i as int);
            let q = b@.take(i as int);
            assert(a@.take(i + 1) =~= p.push(x));
            assert(b@.take(i + 1) =~= q.push(y));
            if p.push(x) == q.push(y) {
                assert(p =~= p.push(x).drop_last());
                assert(q =~= q.push(y).drop_last());
                assert(p.push(x)[i as int] == q.push(y)[i as int]);
            }
        }
        diff = diff | (x ^ y);
        i = i + 1;
    }
    proof {
        assert(a@.take(i as int) =~= a@);
        assert(b@.take(i as int) =~= b@);
    }
    diff == 0
}

/// Whether a header is the given token behind the word that goes before it.
fn holds_token(header: &[u8], token: &Vec<u8>) -> (r: bool)
    ensures
        r == (header@ == bearer() + token@),
{
    let mut expected: Vec<u8> = Vec::new();
    expected.push(66);
    expected.push(101);
    expected.push(97);
    expected.push(114);
    expected.push(101);
    expected.push(114);
    expected.push(32);
    proof {
        assert(expected@ =~= bearer());
    }
    let mut i: usize = 0;
    while i < token.len()
        invariant
            i <= token@.len(),
            expected@ == bearer() + token@.take(i as int),
        decreases token@.len() - i,
    {
        expected.push(token[i]);
        i = i + 1;
        proof {
            assert(expected@ =~= bearer() + token@.take(i as int));
        }
    }
    proof {
        assert(token@.take(i as int) =~= token@);
    }
    constant_eq(header, expected.as_slice())
}

fn header_holds(header: Option<&[u8]>, token: &Option<Vec<u8>>) -> (r: bool)
    ensures
        r == presents(header_view(header), token_view(*token)),
{
    match header {
        Some(h) => match token {
            Some(t) => holds_token(h, t),
            None => false,
        },
        None => false,
    }
}

pub open spec fn header_view(h: Option<&[u8]>) -> Option<Seq<u8>> {
    match h {
        Some(v) => Some(v@),
        None => None,
    }
}

impl AuthTokens {
    /// Whether no token is set.
    pub fn is_empty(&self) -> (r: bool)
        ensures
            r == no_tokens(self@),
    {
        match self.admin {
            Some(_) => false,
            None => match self.readwrite {
                Some(_) => false,
                None => match self.readonly {
                    Some(_) => false,
                    None => true,
                },
            },
        }
    }

    /// The role that a header gives.
    pub fn role(&self, header: Option<&[u8]>) -> (r: Option<AuthRole>)
        ensures
            r == role_of(self@, header_view(header)),
    {
        if header_holds(header, &self.admin) {
            Some(AuthRole::Admin)
        } else if header_holds(header, &self.readwrite) {
            Some(AuthRole::Readwrite)
        } else if header_holds(header, &self.readonly) {
            Some(AuthRole::Readonly)
        } else {
            None
        }
    }
}

/// Refuses a request whose header does not give the role that is asked for.
pub fn require_auth(tokens: &AuthTokens, header: Option<&[u8]>, needed: AuthRole) -> (r: Result<
    (),
    AppError,
>)
    ensures
        match refusal(tokens@, header_view(header), needed) {
            None => r is Ok,
            Some((status, text)) => r is Err && refuses(r->Err_0, status, text),
        },
{
    if tokens.is_empty() {
        return Ok(());
    }
    match tokens.role(header) {
        None => Err(
            AppError(401, String::from_str("missing or invalid Authorization Bearer token")),
        ),
        Some(role) => {
            if role.allows(needed) {
                Ok(())
            } else {
                Err(AppError(403, String::from_str("role not permitted for this endpoint")))
            }
        },
    }
}

/// The endpoints.
#[derive(Debug, Clone, Copy, PartialEq, Eq, Structural)]
pub enum Endpoint {
    Health,
    Stats,
    Metrics,
    Knn,
    Compact,
    PutKv,
    InsertVector,
    PutColumnar,
}

/// The role that an endpoint asks for; `None` where everyone may use it.
pub open spec fn role_needed(e: Endpoint, loopback: bool) -> Option<AuthRole> {
    match e {
        Endpoint::Health => None,
        Endpoint::Metrics => None,
        Endpoint::Knn => None,
        Endpoint::Stats => if loopback {
            None
        } else {
            Some(AuthRole::Readonly)
        },
        Endpoint::Compact => Some(AuthRole::Admin),
        Endpoint::PutKv => Some(AuthRole::Readwrite),
        Endpoint::InsertVector => Some(AuthRole::Readwrite),
        Endpoint::PutColumnar => Some(AuthRole::Readwrite),
    }
}

/// The refusal of a request to an endpoint, if it is refused.
pub open spec fn endpoint_refusal(
    tokens: TokensView,
    header: Option<Seq<u8>>,
    e: Endpoint,
    loopback: bool,
) -> Option<(u16, Seq<char>)> {
    match role_needed(e, loopback) {
        None => None,
        Some(needed) => refusal(tokens, header, needed),
    }
}

/// Refuses a request to an endpoint whose header does not give the role that it asks for.
pub fn guard(tokens: &AuthTokens, header: Option<&[u8]>, e: Endpoint, loopback: bool) -> (r: Result<
    (),
    AppError,
>)
    ensures
        match endpoint_refusal(tokens@, header_view(header), e, loopback) {
            None => r is Ok,
            Some((status, text)) => r is Err && refuses(r->Err_0, status, text),
        },
{
    match e {
        Endpoint::Health => Ok(()),
        Endpoint::Metrics => Ok(()),
        Endpoint::Knn => Ok(()),
        Endpoint::Stats => {
            if loopback {
                Ok(())
            } else {
                require_auth(tokens, header, AuthRole::Readonly)
            }
        },
        Endpoint::Compact => require_auth(tokens, header, AuthRole::Admin),
        Endpoint::PutKv => require_auth(tokens, header, AuthRole::Readwrite),
        Endpoint::InsertVector => require_auth(tokens, header, AuthRole::Readwrite),
        Endpoint::PutColumnar => require_auth(tokens, header, AuthRole::Readwrite),
    }
}

/// Whether a byte is ASCII white space.
pub open spec fn blank(b: u8) -> bool {
    b == 32 || b == 9 || b == 10 || b == 12 || b == 13
}

/// What is left of a text when the white space at its end is cut.
pub open spec fn trimmed(s: Seq<u8>) -> Seq<u8>
    decreases s.len(),
{
    if s.len() > 0 && blank(s.last()) {
        trimmed(s.drop_last())
    } else {
        s
    }
}

/// The token to use: the one given directly or, where that is missing or empty, what the token
/// file holds without the white space at its end; none where that is empty too.
pub open spec fn chosen_token(direct: Option<Seq<u8>>, file: Option<Seq<u8>>) -> Option<Seq<u8>> {
    if direct is Some && direct->Some_0.len() > 0 {
        direct
    } else if file is Some && trimmed(file->Some_0).len() > 0 {
        Some(trimmed(file->Some_0))
    } else {
        None
    }
}

pub fn choose_token(direct: Option<Vec<u8>>, file: Option<Vec<u8>>) -> (r: Option<Vec<u8>>)
    ensures
        token_view(r) == chosen_token(token_view(direct), token_view(file)),
{
    match direct {
        Some(d) => {
            if d.len() > 0 {
                return Some(d);
            }
        },
        None => {},
    }
    match file {
        Some(f) => {
            let mut t: Vec<u8> = f;
            let ghost f0 = t@;
            while t.len() > 0 && is_blank(t[t.len() - 1])
                invariant
                    trimmed(t@) == trimmed(f0),
                decreases t@.len(),
            {
                proof {
                    assert(t@.drop_last() =~= t@.take(t@.len() - 1));
                }
                let gone: Option<u8> = t.pop();
            }
            if t.len() > 0 {
                Some(t)
            } else {
                None
            }
        },
        None => None,
    }
}

fn is_blank(b: u8) -> (r: bool)
    ensures
        r == blank(b),
{
    b == 32 || b == 9 || b == 10 || b == 12 || b == 13
}

/// Refuses to start where the daemon would listen beyond this machine with no token set.
pub fn enforce_bind_auth_policy(bind_is_loopback: bool, auth_enabled: bool) -> (r: Result<
    (),
    String,
>)
    ensures
        r is Ok <==> bind_is_loopback || auth_enabled,
        r is Err ==> r->Err_0@
            == "refusing to listen on a non-loopback address without an auth token"@,
{
    if bind_is_loopback || auth_enabled {
        Ok(())
    } else {
        Err(String::from_str("refusing to listen on a non-loopback address without an auth token"))
    }
}

/// With a token set, a request without a valid one changes nothing: every endpoint that writes
/// or compacts answers it with 401.
pub proof fn writes_need_a_token(
    tokens: TokensView,
    header: Option<Seq<u8>>,
    e: Endpoint,
    loopback: bool,
)
    requires
        !no_tokens(tokens),
        role_of(tokens, header) is None,
        e == Endpoint::Compact || e == Endpoint::PutKv || e == Endpoint::InsertVector || e
            == Endpoint::PutColumnar,
    ensures
        endpoint_refusal(tokens, header, e, loopback) == Some((401u16, unauthorized_text())),
{
}

/// Roles are ordered: what a role is let through to, every higher one is let through to.
pub proof fn higher_roles_may_more(
    tokens: TokensView,
    low: Option<Seq<u8>>,
    high: Option<Seq<u8>>,
    e: Endpoint,
    loopback: bool,
)
    requires
        role_of(tokens, low) is Some,
        role_of(tokens, high) is Some,
        role_of(tokens, low)->Some_0.level() <= role_of(tokens, high)->Some_0.level(),
        endpoint_refusal(tokens, low, e, loopback) is None,
    ensures
        endpoint_refusal(tokens, high, e, loopback) is None,
{
}

/// A daemon that may start at all does not leave its statistics or its writes open to others:
/// beyond this machine, a request without a valid token is refused.
pub proof fn open_daemons_are_local(
    tokens: TokensView,
    header: Option<Seq<u8>>,
    e: Endpoint,
    bind_is_loopback: bool,
)
    requires
        bind_is_loopback || !no_tokens(tokens),
        !bind_is_loopback,
        role_of(tokens, header) is None,
        role_needed(e, bind_is_loopback) is Some,
    ensures
        endpoint_refusal(tokens, header, e, bind_is_loopback) == Some((401u16, unauthorized_text())),
{
}

/// A header gives a role only by the token of that role, behind the word `Bearer` and a space; one
/// that holds a token gives at least the role of that token.
pub proof fn tokens_give_their_roles(tokens: TokensView, token: Seq<u8>, header: Option<Seq<u8>>)
    ensures
        bearer().len() == 7,
        tokens.admin == Some(token) ==> role_of(tokens, Some(bearer() + token)) == Some(
            AuthRole::Admin,
        ),
        tokens.readwrite == Some(token) ==> role_of(tokens, Some(bearer() + token)) is Some
            && role_of(tokens, Some(bearer() + token))->Some_0 != AuthRole::Readonly,
        tokens.readonly == Some(token) ==> role_of(tokens, Some(bearer() + token)) is Some,
        role_of(tokens, header) matches Some(role) ==> header is Some && exists|t: Seq<u8>|
            header->Some_0 == #[trigger] (bearer() + t) && Some(t) == match role {
                AuthRole::Admin => tokens.admin,
                AuthRole::Readwrite => tokens.readwrite,
                AuthRole::Readonly => tokens.readonly,
            },
{
    if let Some(role) = role_of(tokens, header) {
        let t = match role {
            AuthRole::Admin => tokens.admin,
            AuthRole::Readwrite => tokens.readwrite,
            AuthRole::Readonly => tokens.readonly,
        }->Some_0;
        assert(header->Some_0 == bearer() + t);
    }
}

/// Who may do what, once a token is set. Health, metrics and searches are open to all, and so are
/// statistics on this machine. Elsewhere statistics ask for any role, writes for more than the
/// reading one, and a compaction for the highest. A role that is not enough is answered with 403,
/// no role with 401.
pub proof fn roles_open_endpoints(
    tokens: TokensView,
    header: Option<Seq<u8>>,
    e: Endpoint,
    loopback: bool,
)
    requires
        !no_tokens(tokens),
    ensures
        ({
            let r = endpoint_refusal(tokens, header, e, loopback);
            let role = role_of(tokens, header);
            let writes = e == Endpoint::PutKv || e == Endpoint::InsertVector || e
                == Endpoint::PutColumnar;
            &&& e == Endpoint::Health || e == Endpoint::Metrics || e == Endpoint::Knn ==> r is None
            &&& e == Endpoint::Stats ==> (r is None <==> loopback || role is Some)
            &&& writes ==> (r is None <==> role == Some(AuthRole::Readwrite) || role == Some(
                AuthRole::Admin,
            ))
            &&& e == Endpoint::Compact ==> (r is None <==> role == Some(AuthRole::Admin))
            &&& r is Some ==> r->Some_0.0 == (if role is None {
                401u16
            } else {
                403u16
            })
        }),
{
}

/// Where no token is set, no one is refused.
pub proof fn without_tokens_all_is_open(
    tokens: TokensView,
    header: Option<Seq<u8>>,
    e: Endpoint,
    loopback: bool,
)
    requires
        tokens.admin is None,
        tokens.readwrite is None,
        tokens.readonly is None,
    ensures
        endpoint_refusal(tokens, header, e, loopback) is None,
{
}

/// Trimming cuts white space at the end, all of it and nothing else.
pub proof fn trimming_cuts_white_space(s: Seq<u8>)
    ensures
        trimmed(s).len() <= s.len(),
        trimmed(s) == s.take(trimmed(s).len() as int),
        forall|i: int|
            trimmed(s).len() <= i < s.len() ==> #[trigger] s[i] == 32 || s[i] == 9 || s[i] == 10
                || s[i] == 12 || s[i] == 13,
        trimmed(s).len() > 0 ==> ({
            let b = trimmed(s).last();
            b != 32 && b != 9 && b != 10 && b != 12 && b != 13
        }),
    decreases s.len(),
{
    if s.len() > 0 && blank(s.last()) {
        let init = s.drop_last();
        trimming_cuts_white_space(init);
        assert(init.take(trimmed(s).len() as int) =~= s.take(trimmed(s).len() as int));
        assert forall|i: int| trimmed(s).len() <= i < s.len() implies #[trigger] s[i] == 32 || s[i]
            == 9 || s[i] == 10 || s[i] == 12 || s[i] == 13 by {
            if i < init.len() {
                assert(init[i] == s[i]);
            }
        }
    } else {
        assert(s.take(s.len() as int) =~= s);
    }
}

/// A token that is given directly is used as it is; otherwise the file is, trimmed; no token is
/// ever empty.
pub proof fn direct_tokens_come_first(direct: Option<Seq<u8>>, file: Option<Seq<u8>>)
    ensures
        direct matches Some(d) && d.len() > 0 ==> chosen_token(direct, file) == direct,
        (direct is None || direct->Some_0.len() == 0) ==> match chosen_token(direct, file) {
            Some(t) => file is Some && t == trimmed(file->Some_0),
            None => file is None || trimmed(file->Some_0).len() == 0,
        },
        chosen_token(direct, file) matches Some(t) ==> t.len() > 0,
{
}

} // verus!
