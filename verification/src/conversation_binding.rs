//! Conversation-to-account binding: which candidate account a conversation is
//! routed to, how the binding is claimed before upstream I/O, and which write
//! the binding store receives when a response finishes.
use vstd::prelude::*;
use crate::text::{non_blank, non_blank_opt, str_eq, string_from_chars, to_owned_string, trim, trim_str};

verus! {

/// A persisted binding between a conversation and the account that serves it.
pub struct ConversationBinding {
    pub platform_key_hash: String,
    pub conversation_id: String,
    pub account_id: String,
    pub thread_epoch: i64,
    pub thread_anchor: String,
    pub status: String,
    pub last_model: Option<String>,
    pub last_switch_reason: Option<String>,
    pub created_at: i64,
    pub updated_at: i64,
    pub last_used_at: i64,
}

/// Where the conversation key of a request came from.
#[derive(Clone, Copy, Debug, PartialEq, Eq, Structural)]
pub enum RouteConversationSource {
    NativeConversation,
    StickyFallback,
    PromptCacheKey,
    PromptCacheKeyExistingOnly,
    SessionAffinity,
    SessionAffinityExistingOnly,
}

pub open spec fn spec_is_cache_affinity(s: RouteConversationSource) -> bool {
    s is PromptCacheKey || s is PromptCacheKeyExistingOnly || s is SessionAffinity
        || s is SessionAffinityExistingOnly
}

pub open spec fn spec_allows_initial_binding_create(s: RouteConversationSource) -> bool {
    !(s is PromptCacheKeyExistingOnly || s is SessionAffinityExistingOnly)
}

impl RouteConversationSource {
    pub fn is_cache_affinity(self) -> (r: bool)
        ensures
            r == spec_is_cache_affinity(self),
    {
        match self {
            RouteConversationSource::PromptCacheKey
            | RouteConversationSource::PromptCacheKeyExistingOnly
            | RouteConversationSource::SessionAffinity
            | RouteConversationSource::SessionAffinityExistingOnly => true,
            _ => false,
        }
    }

    pub fn allows_initial_binding_create(self) -> (r: bool)
        ensures
            r == spec_allows_initial_binding_create(self),
    {
        match self {
            RouteConversationSource::PromptCacheKeyExistingOnly
            | RouteConversationSource::SessionAffinityExistingOnly => false,
            _ => true,
        }
    }
}

/// Which request field supplied the cache-affinity key material.
#[derive(Clone, Copy, Debug, PartialEq, Eq, Structural)]
pub enum CacheAffinityKeySource {
    PromptCacheKey,
    SessionId,
}

impl CacheAffinityKeySource {
    pub fn tag(self) -> (r: &'static str)
        ensures
            r@ == (match self {
                CacheAffinityKeySource::PromptCacheKey => "pck"@,
                CacheAffinityKeySource::SessionId => "sid"@,
            }),
    {
        match self {
            CacheAffinityKeySource::PromptCacheKey => "pck",
            CacheAffinityKeySource::SessionId => "sid",
        }
    }
}

/// The SHA-256 digest of a byte sequence.
pub uninterp spec fn sha256(data: Seq<u8>) -> Seq<u8>;

/// `sha2::Sha256::digest`: the 32-byte SHA-256 digest of `data`.
#[verifier::external_body]
fn sha256_digest(data: &[u8]) -> (r: Vec<u8>)
    ensures
        r@ == sha256(data@),
        r@.len() == 32,
{
    <sha2::Sha256 as sha2::Digest>::digest(data).to_vec()
}

pub open spec fn hex_digit(n: u8) -> char
    recommends
        n < 16,
{
    if n < 10 {
        (('0' as u8) + n) as char
    } else {
        (('a' as u8) + n - 10) as char
    }
}

/// Lower-case hexadecimal rendering, two digits per byte.
pub open spec fn hex_lower(b: Seq<u8>) -> Seq<char>
    decreases b.len(),
{
    if b.len() == 0 {
        Seq::empty()
    } else {
        hex_lower(b.drop_last()) + seq![hex_digit(b.last() / 16), hex_digit(b.last() % 16)]
    }
}

pub fn hex_digit_exec(n: u8) -> (c: char)
    requires
        n < 16,
    ensures
        c == hex_digit(n),
{
    if n < 10 {
        ((48u8 + n) as char)
    } else {
        ((97u8 + n - 10) as char)
    }
}

/// The bytes that the route id digests.
pub open spec fn cache_affinity_material(
    platform_key_hash: Seq<char>,
    protocol_type: Seq<char>,
    model: Seq<char>,
    tag: Seq<char>,
    key_material: Seq<char>,
) -> Seq<char> {
    "cache-affinity:v2\0"@ + platform_key_hash + "\0"@ + protocol_type + "\0"@ + model + "\0"@
        + tag + "\0"@ + key_material
}

/// Produces a privacy-safe persistent route id: the source tag, `:v2:` and the
/// first 16 bytes (in hex) of the SHA-256 of the partitioned key material.
/// Model partitioning keeps a session that changes models from pinning
/// unrelated upstream cache pools to one account.
pub fn cache_affinity_route_id(
    platform_key_hash: &str,
    protocol_type: &str,
    model: Option<&str>,
    source: CacheAffinityKeySource,
    key_material: &str,
) -> (r: String)
    ensures
        ({
            let m = match model {
                Some(v) => match non_blank(v@) {
                    Some(t) => t,
                    None => "-"@,
                },
                None => "-"@,
            };
            let tag = if source is PromptCacheKey { "pck"@ } else { "sid"@ };
            let material = cache_affinity_material(
                platform_key_hash@,
                protocol_type@,
                m,
                tag,
                trim(key_material@),
            );
            let digest = sha256(vstd::utf8::encode_utf8(material));
            r@ == tag + ":v2:"@ + hex_lower(digest.subrange(0, 16))
        }),
{
    let m = match non_blank_opt(model) {
        Some(t) => t,
        None => to_owned_string("-"),
    };
    let tag = source.tag();
    let key = trim_str(key_material);
    let mut material = to_owned_string("cache-affinity:v2\0");
    material.append(platform_key_hash);
    material.append("\0");
    material.append(protocol_type);
    material.append("\0");
    material.append(m.as_str());
    material.append("\0");
    material.append(tag);
    material.append("\0");
    material.append(key.as_str());
    let digest = sha256_digest(material.as_str().as_bytes());
    route_id_from_digest(tag, &digest)
}

/// The route id of a digest: the source tag, `:v2:` and the first 16 bytes of
/// the digest in lower-case hex.
pub fn route_id_from_digest(tag: &str, digest: &Vec<u8>) -> (r: String)
    requires
        digest@.len() >= 16,
    ensures
        r@ == tag@ + ":v2:"@ + hex_lower(digest@.subrange(0, 16)),
{
    let mut out: Vec<char> = Vec::new();
    let mut i: usize = 0;
    while i < 16
        invariant
            i <= 16,
            digest@.len() >= 16,
            out@ == hex_lower(digest@.subrange(0, i as int)),
        decreases 16 - i,
    {
        let b = digest[i];
        out.push(hex_digit_exec(b / 16));
        out.push(hex_digit_exec(b % 16));
        proof {
            let s = digest@.subrange(0, i + 1);
            assert(s.drop_last() == digest@.subrange(0, i as int));
            assert(s.last() == b);
        }
        i = i + 1;
    }
    let mut r = to_owned_string(tag);
    r.append(":v2:");
    r.append(string_from_chars(out.as_slice()).as_str());
    r
}

/// Why the first candidate of a request was chosen.
#[derive(Clone, Copy, Debug, PartialEq, Eq, Structural)]
pub enum CandidateRotationSource {
    ConversationBinding,
    ManualPreferredAccount,
    ThreadAwareDistribution,
    RouteStrategy,
}

impl CandidateRotationSource {
    pub fn as_str(self) -> (r: &'static str)
        ensures
            r@ == (match self {
                CandidateRotationSource::ConversationBinding => "conversation_bound"@,
                CandidateRotationSource::ManualPreferredAccount => "manual_preferred_account"@,
                CandidateRotationSource::ThreadAwareDistribution => "thread_aware_distribution"@,
                CandidateRotationSource::RouteStrategy => "route_strategy"@,
            }),
    {
        match self {
            CandidateRotationSource::ConversationBinding => "conversation_bound",
            CandidateRotationSource::ManualPreferredAccount => "manual_preferred_account",
            CandidateRotationSource::ThreadAwareDistribution => "thread_aware_distribution",
            CandidateRotationSource::RouteStrategy => "route_strategy",
        }
    }
}

/// How the candidate list was ordered for one request.
pub struct CandidateRotationPlan {
    pub source: CandidateRotationSource,
    pub strategy_label: String,
    pub strategy_applied: bool,
}

/// The thread a single upstream attempt belongs to.
pub struct ConversationThreadAttempt {
    pub thread_anchor: String,
    pub thread_epoch: i64,
    pub reset_session_affinity: bool,
}

/// Result of claiming the initial binding of a new conversation.
#[derive(Clone, Copy, Debug, PartialEq, Eq, Structural)]
pub enum InitialBindingClaim {
    Skipped,
    Created,
    Joined,
    BoundAccountUnavailable,
}

impl InitialBindingClaim {
    pub fn selected_binding(self) -> (r: bool)
        ensures
            r == (self is Created || self is Joined),
    {
        match self {
            InitialBindingClaim::Created | InitialBindingClaim::Joined => true,
            _ => false,
        }
    }

    pub fn strategy_label(self) -> (r: &'static str)
        ensures
            r@ == (match self {
                InitialBindingClaim::Created => "conversation_claim_created"@,
                InitialBindingClaim::Joined => "conversation_claim_joined"@,
                _ => "conversation_bound"@,
            }),
    {
        match self {
            InitialBindingClaim::Created => "conversation_claim_created",
            InitialBindingClaim::Joined => "conversation_claim_joined",
            InitialBindingClaim::Skipped | InitialBindingClaim::BoundAccountUnavailable => {
                "conversation_bound"
            },
        }
    }
}

/// A routing candidate: the account id the routing reads, and what the caller
/// carries along with it.
pub struct Candidate<T> {
    pub account_id: String,
    pub payload: T,
}

/// Per-request routing state of a conversation.
pub struct ConversationRoutingContext {
    pub platform_key_hash: String,
    pub conversation_id: String,
    pub source: RouteConversationSource,
    pub existing_binding: Option<ConversationBinding>,
    pub binding_selected: bool,
    pub bound_account_selectable: bool,
    pub manual_preferred_account_id: Option<String>,
    pub next_thread_epoch: Option<i64>,
}

/// The account ids of a candidate list.
pub open spec fn candidate_ids<T>(c: Seq<Candidate<T>>) -> Seq<Seq<char>> {
    c.map_values(|x: Candidate<T>| x.account_id@)
}

/// Index of the first candidate with the given account id, or -1.
pub open spec fn first_index_of(ids: Seq<Seq<char>>, id: Seq<char>) -> int
    decreases ids.len(),
{
    if ids.len() == 0 {
        -1
    } else if ids[0] == id {
        0
    } else {
        let r = first_index_of(ids.drop_first(), id);
        if r < 0 {
            -1
        } else {
            r + 1
        }
    }
}

/// `rotate_left(k)`.
pub open spec fn rotated<A>(s: Seq<A>, k: int) -> Seq<A> {
    s.subrange(k, s.len() as int) + s.subrange(0, k)
}

proof fn lemma_first_index_bounds(ids: Seq<Seq<char>>, id: Seq<char>)
    ensures
        -1 <= first_index_of(ids, id) < ids.len(),
        first_index_of(ids, id) >= 0 ==> ids[first_index_of(ids, id)] == id,
        first_index_of(ids, id) >= 0 ==> forall|k: int|
            0 <= k < first_index_of(ids, id) ==> ids[k] != id,
        first_index_of(ids, id) < 0 ==> forall|k: int| 0 <= k < ids.len() ==> ids[k] != id,
    decreases ids.len(),
{
    if ids.len() > 0 && ids[0] != id {
        lemma_first_index_bounds(ids.drop_first(), id);
        assert forall|k: int| 1 <= k < ids.len() implies ids[k] == ids.drop_first()[k - 1] by {}
    }
}

proof fn lemma_first_index_char(ids: Seq<Seq<char>>, id: Seq<char>, i: int)
    requires
        0 <= i <= ids.len(),
        forall|k: int| 0 <= k < i ==> ids[k] != id,
    ensures
        i < ids.len() && ids[i] == id ==> first_index_of(ids, id) == i,
        i == ids.len() ==> first_index_of(ids, id) == -1,
    decreases i,
{
    if i > 0 {
        lemma_first_index_char(ids.drop_first(), id, i - 1);
    } else if ids.len() == 0 {
    }
}

/// Position of the first candidate serving `account_id`.
pub fn find_candidate<T>(candidates: &Vec<Candidate<T>>, account_id: &str) -> (r: Option<usize>)
    ensures
        match r {
            Some(i) => first_index_of(candidate_ids(candidates@), account_id@) == i as int,
            None => first_index_of(candidate_ids(candidates@), account_id@) == -1,
        },
{
    let ghost ids = candidate_ids(candidates@);
    let mut i: usize = 0;
    while i < candidates.len()
        invariant
            i <= candidates@.len(),
            ids == candidate_ids(candidates@),
            forall|k: int| 0 <= k < i ==> ids[k] != account_id@,
        decreases candidates.len() - i,
    {
        if str_eq(candidates[i].account_id.as_str(), account_id) {
            proof {
                lemma_first_index_char(ids, account_id@, i as int);
            }
            return Some(i);
        }
        i = i + 1;
    }
    proof {
        lemma_first_index_char(ids, account_id@, i as int);
    }
    None
}

/// `rotate_left(k)` on the candidate list.
pub fn rotate_candidates<T>(candidates: &mut Vec<Candidate<T>>, k: usize)
    requires
        k <= old(candidates)@.len(),
    ensures
        final(candidates)@ == rotated(old(candidates)@, k as int),
{
    let mut tail = candidates.split_off(k);
    tail.append(candidates);
    *candidates = tail;
}

/// Moves the first candidate serving `account_id` to the front, keeping the
/// cyclic order; `false` (list unchanged) when no candidate serves it.
pub fn rotate_to_account_id<T>(candidates: &mut Vec<Candidate<T>>, account_id: &str) -> (r: bool)
    ensures
        ({
            let idx = first_index_of(candidate_ids(old(candidates)@), account_id@);
            &&& r == (idx >= 0)
            &&& r ==> final(candidates)@ == rotated(old(candidates)@, idx)
            &&& !r ==> final(candidates)@ == old(candidates)@
        }),
{
    match find_candidate(candidates, account_id) {
        None => false,
        Some(index) => {
            proof {
                lemma_first_index_bounds(candidate_ids(candidates@), account_id@);
            }
            if index > 0 {
                rotate_candidates(candidates, index);
            } else {
                proof {
                    assert(rotated(old(candidates)@, 0) =~= old(candidates)@);
                }
            }
            true
        },
    }
}

/// The binding's thread anchor, or else the normalized conversation id.
pub fn effective_thread_anchor(
    conversation_id: Option<&str>,
    binding: Option<&ConversationBinding>,
) -> (r: Option<String>)
    ensures
        match binding {
            Some(b) => r matches Some(a) && a@ == b.thread_anchor@,
            None => match conversation_id {
                Some(c) => match non_blank(c@) {
                    Some(t) => r matches Some(a) && a@ == t,
                    None => r is None,
                },
                None => r is None,
            },
        },
{
    match binding {
        Some(b) => Some(b.thread_anchor.clone()),
        None => non_blank_opt(conversation_id),
    }
}

/// The epoch a new thread of this conversation would take.
pub fn derive_next_thread_epoch(existing_binding: Option<&ConversationBinding>) -> (r: Option<i64>)
    requires
        existing_binding matches Some(b) ==> b.thread_epoch < i64::MAX,
    ensures
        match existing_binding {
            Some(b) => r == Some((b.thread_epoch + 1) as i64),
            None => r is None,
        },
{
    match existing_binding {
        Some(b) => Some(b.thread_epoch + 1),
        None => None,
    }
}

/// `manual_account_switch` when the account is the manually preferred one.
pub fn switch_reason_for_account(routing: &ConversationRoutingContext, account_id: &str) -> (r:
    &'static str)
    ensures
        r@ == (if routing.manual_preferred_account_id matches Some(m) && m@ == account_id@ {
            "manual_account_switch"@
        } else {
            "automatic_account_switch"@
        }),
{
    match &routing.manual_preferred_account_id {
        Some(m) if str_eq(m.as_str(), account_id) => "manual_account_switch",
        _ => "automatic_account_switch",
    }
}

/// A count attached to an account id.
pub struct AccountCount {
    pub account_id: String,
    pub count: usize,
}

/// The count of the first entry for `id`, or 0.
pub open spec fn count_of(table: Seq<AccountCount>, id: Seq<char>) -> nat
    decreases table.len(),
{
    if table.len() == 0 {
        0
    } else if table[0].account_id@ == id {
        table[0].count as nat
    } else {
        count_of(table.drop_first(), id)
    }
}

pub open spec fn sat_add(a: nat, b: nat) -> nat {
    if a + b > usize::MAX {
        usize::MAX as nat
    } else {
        a + b
    }
}

/// Threads bound to the account plus its requests in flight, saturating.
pub open spec fn spec_thread_load(
    id: Seq<char>,
    binding_counts: Seq<AccountCount>,
    inflight: Seq<AccountCount>,
) -> nat {
    sat_add(count_of(binding_counts, id), count_of(inflight, id))
}

fn lookup_count(table: &Vec<AccountCount>, account_id: &str) -> (r: usize)
    ensures
        r as nat == count_of(table@, account_id@),
{
    let mut i: usize = 0;
    assert(table@.subrange(0, table@.len() as int) =~= table@);
    while i < table.len()
        invariant
            i <= table@.len(),
            count_of(table@, account_id@) == count_of(table@.subrange(i as int, table@.len() as int), account_id@),
        decreases table.len() - i,
    {
        let ghost rest = table@.subrange(i as int, table@.len() as int);
        if str_eq(table[i].account_id.as_str(), account_id) {
            assert(rest[0] == table@[i as int]);
            return table[i].count;
        }
        proof {
            assert(rest[0] == table@[i as int]);
            assert(rest.drop_first() =~= table@.subrange(i + 1, table@.len() as int));
        }
        i = i + 1;
    }
    0
}

/// Load of an account for thread-aware distribution.
pub fn thread_distribution_load(
    account_id: &str,
    account_binding_counts: &Vec<AccountCount>,
    inflight_counts: &Vec<AccountCount>,
) -> (r: usize)
    ensures
        r as nat == spec_thread_load(account_id@, account_binding_counts@, inflight_counts@),
{
    let a = lookup_count(account_binding_counts, account_id);
    let b = lookup_count(inflight_counts, account_id);
    a.saturating_add(b)
}

pub open spec fn spec_should_apply_thread_aware(
    routing: Option<&ConversationRoutingContext>,
    has_counts: bool,
) -> bool {
    has_counts && match routing {
        Some(r) => r.existing_binding is None && r.manual_preferred_account_id is None
            && spec_allows_initial_binding_create(r.source),
        None => false,
    }
}

/// Thread-aware distribution is for new conversations only: never with an
/// existing binding, a manual preference, a route that may not create a
/// binding, no routing, or no binding counts; and always otherwise.
pub proof fn lemma_thread_aware_only_for_new_conversations(
    routing: Option<&ConversationRoutingContext>,
    has_counts: bool,
)
    ensures
        routing matches Some(ctx) && ctx.existing_binding is Some ==> !spec_should_apply_thread_aware(
            routing,
            has_counts,
        ),
        routing matches Some(ctx) && ctx.manual_preferred_account_id is Some
            ==> !spec_should_apply_thread_aware(routing, has_counts),
        routing matches Some(ctx) && (ctx.source is PromptCacheKeyExistingOnly || ctx.source
            is SessionAffinityExistingOnly) ==> !spec_should_apply_thread_aware(routing, has_counts),
        routing is None || !has_counts ==> !spec_should_apply_thread_aware(routing, has_counts),
        routing matches Some(ctx) && ctx.existing_binding is None && ctx.manual_preferred_account_id
            is None && !(ctx.source is PromptCacheKeyExistingOnly || ctx.source
            is SessionAffinityExistingOnly) && has_counts ==> spec_should_apply_thread_aware(
            routing,
            has_counts,
        ),
{
}

/// Thread-aware distribution applies to new conversations that may create a
/// binding and have no manual preference, when binding counts are known.
pub fn should_apply_thread_aware_distribution(
    routing: Option<&ConversationRoutingContext>,
    has_binding_counts: bool,
) -> (r: bool)
    ensures
        r == spec_should_apply_thread_aware(routing, has_binding_counts),
{
    if !has_binding_counts {
        return false;
    }
    match routing {
        Some(r) => r.existing_binding.is_none() && r.manual_preferred_account_id.is_none()
            && r.source.allows_initial_binding_create(),
        None => false,
    }
}

/// Index of the first candidate with the least load.
pub open spec fn spec_least_loaded_index<T>(
    c: Seq<Candidate<T>>,
    bc: Seq<AccountCount>,
    inf: Seq<AccountCount>,
    upto: int,
) -> int
    decreases upto,
{
    if upto <= 1 {
        0
    } else {
        let prev = spec_least_loaded_index(c, bc, inf, upto - 1);
        if spec_thread_load(c[upto - 1].account_id@, bc, inf) < spec_thread_load(
            c[prev].account_id@,
            bc,
            inf,
        ) {
            upto - 1
        } else {
            prev
        }
    }
}

/// The candidate that a thread-aware rotation puts first carries the least
/// load (bindings plus requests in flight) of all candidates considered.
pub proof fn lemma_least_loaded_bounds<T>(
    c: Seq<Candidate<T>>,
    bc: Seq<AccountCount>,
    inf: Seq<AccountCount>,
    upto: int,
)
    requires
        1 <= upto <= c.len(),
    ensures
        0 <= spec_least_loaded_index(c, bc, inf, upto) < upto,
        forall|k: int|
            0 <= k < upto ==> spec_thread_load(
                c[spec_least_loaded_index(c, bc, inf, upto)].account_id@,
                bc,
                inf,
            ) <= spec_thread_load(#[trigger] c[k].account_id@, bc, inf),
    decreases upto,
{
    if upto > 1 {
        lemma_least_loaded_bounds(c, bc, inf, upto - 1);
    }
}

/// Rotates the first least-loaded candidate to the front; `true` when the
/// order changed.
pub fn rotate_to_least_loaded_thread_account<T>(
    candidates: &mut Vec<Candidate<T>>,
    account_binding_counts: &Vec<AccountCount>,
    inflight_counts: &Vec<AccountCount>,
) -> (r: bool)
    ensures
        ({
            let c = old(candidates)@;
            let best = spec_least_loaded_index(c, account_binding_counts@, inflight_counts@, c.len() as int);
            &&& r == (c.len() > 1 && best > 0)
            &&& r ==> final(candidates)@ == rotated(c, best)
            &&& !r ==> final(candidates)@ == c
        }),
{
    let n = candidates.len();
    if n <= 1 {
        return false;
    }
    let ghost c = candidates@;
    let mut best_index: usize = 0;
    let mut best_load = thread_distribution_load(
        candidates[0].account_id.as_str(),
        account_binding_counts,
        inflight_counts,
    );
    let mut index: usize = 1;
    while index < n
        invariant
            1 <= index <= n,
            n == c.len(),
            c == candidates@,
            best_index == spec_least_loaded_index(c, account_binding_counts@, inflight_counts@, index as int),
            best_index < index,
            best_load as nat == spec_thread_load(c[best_index as int].account_id@, account_binding_counts@, inflight_counts@),
        decreases n - index,
    {
        let load = thread_distribution_load(
            candidates[index].account_id.as_str(),
            account_binding_counts,
            inflight_counts,
        );
        if load < best_load {
            best_index = index;
            best_load = load;
        }
        index = index + 1;
    }
    if best_index > 0 {
        rotate_candidates(candidates, best_index);
        return true;
    }
    false
}

/// Routing context for a request that names a conversation: the existing
/// binding, whether its account is selectable, and the manual preference;
/// the candidates are rotated to the manual account, or else to the bound one.
pub fn prepare_conversation_routing_with_source<T>(
    platform_key_hash: &str,
    conversation_id: Option<&str>,
    existing_binding: Option<&ConversationBinding>,
    candidates: &mut Vec<Candidate<T>>,
    source: RouteConversationSource,
    manual_preferred_account: Option<&str>,
) -> (r: Option<ConversationRoutingContext>)
    requires
        existing_binding matches Some(b) ==> b.thread_epoch < i64::MAX,
    ensures
        ({
            let c = old(candidates)@;
            let ids = candidate_ids(c);
            let conv = match conversation_id {
                Some(v) => non_blank(v@),
                None => None,
            };
            let manual_idx = match manual_preferred_account {
                Some(m) => first_index_of(ids, m@),
                None => -1,
            };
            let bound_idx = match existing_binding {
                Some(b) => first_index_of(ids, b.account_id@),
                None => -1,
            };
            match conv {
                None => r is None && final(candidates)@ == c,
                Some(cid) => r matches Some(ctx) && {
                    &&& ctx.platform_key_hash@ == platform_key_hash@
                    &&& ctx.conversation_id@ == cid
                    &&& ctx.source == source
                    &&& ctx.existing_binding == opt_deref(existing_binding)
                    &&& ctx.bound_account_selectable == (bound_idx >= 0)
                    &&& (manual_idx >= 0 ==> {
                        &&& ctx.manual_preferred_account_id matches Some(m)
                            && m@ == manual_preferred_account->0@
                        &&& final(candidates)@ == rotated(c, manual_idx)
                        &&& ctx.binding_selected == (existing_binding matches Some(b)
                            && b.account_id@ == manual_preferred_account->0@)
                    })
                    &&& (manual_idx < 0 ==> {
                        &&& ctx.manual_preferred_account_id is None
                        &&& ctx.binding_selected == (bound_idx >= 0)
                        &&& final(candidates)@ == (if bound_idx >= 0 {
                            rotated(c, bound_idx)
                        } else {
                            c
                        })
                    })
                    &&& ctx.next_thread_epoch == match existing_binding {
                        Some(b) => Some((b.thread_epoch + 1) as i64),
                        None => None::<i64>,
                    }
                },
            }
        }),
{
    let conversation_id = match non_blank_opt(conversation_id) {
        Some(c) => c,
        None => return None,
    };
    let existing = clone_binding_opt(existing_binding);
    let bound_account_selectable = match existing_binding {
        Some(b) => find_candidate(candidates, b.account_id.as_str()).is_some(),
        None => false,
    };
    let manual_preferred_account_id = match manual_preferred_account {
        Some(m) => {
            if rotate_to_account_id(candidates, m) {
                Some(to_owned_string(m))
            } else {
                None
            }
        },
        None => None,
    };
    let binding_selected = match &manual_preferred_account_id {
        Some(m) => match existing_binding {
            Some(b) => str_eq(b.account_id.as_str(), m.as_str()),
            None => false,
        },
        None => match existing_binding {
            Some(b) => rotate_to_account_id(candidates, b.account_id.as_str()),
            None => false,
        },
    };
    let next_thread_epoch = derive_next_thread_epoch(existing_binding);
    Some(
        ConversationRoutingContext {
            platform_key_hash: to_owned_string(platform_key_hash),
            conversation_id,
            source,
            existing_binding: existing,
            binding_selected,
            bound_account_selectable,
            manual_preferred_account_id,
            next_thread_epoch,
        },
    )
}

pub open spec fn opt_deref(b: Option<&ConversationBinding>) -> Option<ConversationBinding> {
    match b {
        Some(x) => Some(*x),
        None => None,
    }
}

fn clone_opt_string(s: &Option<String>) -> (r: Option<String>)
    ensures
        r == *s,
{
    match s {
        Some(v) => Some(v.clone()),
        None => None,
    }
}

/// A field-by-field copy of a binding.
pub fn clone_binding(b: &ConversationBinding) -> (r: ConversationBinding)
    ensures
        r == *b,
{
    ConversationBinding {
        platform_key_hash: b.platform_key_hash.clone(),
        conversation_id: b.conversation_id.clone(),
        account_id: b.account_id.clone(),
        thread_epoch: b.thread_epoch,
        thread_anchor: b.thread_anchor.clone(),
        status: b.status.clone(),
        last_model: clone_opt_string(&b.last_model),
        last_switch_reason: clone_opt_string(&b.last_switch_reason),
        created_at: b.created_at,
        updated_at: b.updated_at,
        last_used_at: b.last_used_at,
    }
}

fn clone_binding_opt(b: Option<&ConversationBinding>) -> (r: Option<ConversationBinding>)
    ensures
        r == opt_deref(b),
{
    match b {
        Some(v) => Some(clone_binding(v)),
        None => None,
    }
}

/// The rotation that happens before the route strategy runs: a selected
/// binding or a selectable manual preference fixes the order; `None` when the
/// route strategy has to order the candidates.
pub fn early_candidate_rotation_plan(routing: Option<&ConversationRoutingContext>) -> (r: Option<
    CandidateRotationPlan,
>)
    ensures
        match routing {
            Some(ctx) if ctx.binding_selected => r matches Some(p) && p.source
                is ConversationBinding && p.strategy_label@ == "conversation_bound"@
                && !p.strategy_applied,
            Some(ctx) if ctx.manual_preferred_account_id is Some => r matches Some(p) && p.source
                is ManualPreferredAccount && p.strategy_label@ == "manual_preferred_account"@
                && !p.strategy_applied,
            _ => r is None,
        },
{
    match routing {
        Some(ctx) => {
            if ctx.binding_selected {
                Some(
                    CandidateRotationPlan {
                        source: CandidateRotationSource::ConversationBinding,
                        strategy_label: to_owned_string("conversation_bound"),
                        strategy_applied: false,
                    },
                )
            } else if ctx.manual_preferred_account_id.is_some() {
                Some(
                    CandidateRotationPlan {
                        source: CandidateRotationSource::ManualPreferredAccount,
                        strategy_label: to_owned_string("manual_preferred_account"),
                        strategy_applied: false,
                    },
                )
            } else {
                None
            }
        },
        None => None,
    }
}

/// A manual preference is given and some candidate serves it.
pub open spec fn manual_listed<T>(manual: Option<&str>, c: Seq<Candidate<T>>) -> bool {
    match manual {
        Some(m) => first_index_of(candidate_ids(c), m@) >= 0,
        None => false,
    }
}

/// The plan once the route strategy has ordered the candidates: a manual
/// preference that is among the candidates wins, then thread-aware
/// distribution (which rotates the least-loaded account to the front), and
/// otherwise the route strategy's own order stands.
pub fn rotation_plan_after_route_strategy<T>(
    candidates: &mut Vec<Candidate<T>>,
    routing: Option<&ConversationRoutingContext>,
    manual_preferred_account: Option<&str>,
    account_binding_counts: Option<&Vec<AccountCount>>,
    inflight_counts: &Vec<AccountCount>,
    route_strategy_label: &str,
) -> (r: CandidateRotationPlan)
    ensures
        match routing {
            Some(ctx) => ctx.existing_binding is Some && !manual_listed(
                manual_preferred_account,
                old(candidates)@,
            ) ==> {
                &&& r.source is RouteStrategy
                &&& r.strategy_label@ == route_strategy_label@
                &&& r.strategy_applied
                &&& final(candidates)@ == old(candidates)@
            },
            None => true,
        },
        ({
            let c = old(candidates)@;
            let manual_present = manual_preferred_account matches Some(m) && first_index_of(
                candidate_ids(c),
                m@,
            ) >= 0;
            if manual_present {
                &&& r.source is ManualPreferredAccount
                &&& r.strategy_label@ == "manual_preferred_account"@
                &&& !r.strategy_applied
                &&& final(candidates)@ == c
            } else if spec_should_apply_thread_aware(routing, account_binding_counts is Some) {
                let best = spec_least_loaded_index(
                    c,
                    account_binding_counts->0@,
                    inflight_counts@,
                    c.len() as int,
                );
                &&& r.source is ThreadAwareDistribution
                &&& r.strategy_label@ == "thread_aware_distribution"@
                &&& r.strategy_applied == (c.len() > 1 && best > 0)
                &&& final(candidates)@ == (if r.strategy_applied {
                    rotated(c, best)
                } else {
                    c
                })
            } else {
                &&& r.source is RouteStrategy
                &&& r.strategy_label@ == route_strategy_label@
                &&& r.strategy_applied
                &&& final(candidates)@ == c
            }
        }),
{
    proof {
        lemma_thread_aware_only_for_new_conversations(routing, account_binding_counts is Some);
    }
    let manual_present = match manual_preferred_account {
        Some(m) => find_candidate(candidates, m).is_some(),
        None => false,
    };
    if manual_present {
        return CandidateRotationPlan {
            source: CandidateRotationSource::ManualPreferredAccount,
            strategy_label: to_owned_string("manual_preferred_account"),
            strategy_applied: false,
        };
    }
    if should_apply_thread_aware_distribution(routing, account_binding_counts.is_some()) {
        let strategy_applied = match account_binding_counts {
            Some(counts) => rotate_to_least_loaded_thread_account(
                candidates,
                counts,
                inflight_counts,
            ),
            None => false,
        };
        return CandidateRotationPlan {
            source: CandidateRotationSource::ThreadAwareDistribution,
            strategy_label: to_owned_string("thread_aware_distribution"),
            strategy_applied,
        };
    }
    CandidateRotationPlan {
        source: CandidateRotationSource::RouteStrategy,
        strategy_label: to_owned_string(route_strategy_label),
        strategy_applied: true,
    }
}

/// The binding a new conversation proposes for its first candidate, claimed
/// before upstream I/O so that concurrent first requests of one conversation
/// join a single account. `None` when nothing is to be claimed.
pub fn initial_binding_proposal<T>(
    routing: Option<&ConversationRoutingContext>,
    candidates: &Vec<Candidate<T>>,
    model: Option<&str>,
    now: i64,
) -> (r: Option<ConversationBinding>)
    ensures
        match routing {
            Some(ctx) if ctx.existing_binding is None && spec_allows_initial_binding_create(
                ctx.source,
            ) && candidates@.len() > 0 => r matches Some(b) && {
                &&& b.platform_key_hash@ == ctx.platform_key_hash@
                &&& b.conversation_id@ == ctx.conversation_id@
                &&& b.account_id@ == candidates@[0].account_id@
                &&& b.thread_epoch == 1
                &&& b.thread_anchor@ == ctx.conversation_id@
                &&& b.status@ == "active"@
                &&& (match model {
                    Some(m) => b.last_model matches Some(x) && x@ == m@,
                    None => b.last_model is None,
                })
                &&& b.last_switch_reason is None
                &&& b.created_at == now && b.updated_at == now && b.last_used_at == now
            },
            _ => r is None,
        },
{
    let ctx = match routing {
        Some(c) => c,
        None => return None,
    };
    if ctx.existing_binding.is_some() || !ctx.source.allows_initial_binding_create() {
        return None;
    }
    if candidates.len() == 0 {
        return None;
    }
    Some(
        ConversationBinding {
            platform_key_hash: ctx.platform_key_hash.clone(),
            conversation_id: ctx.conversation_id.clone(),
            account_id: candidates[0].account_id.clone(),
            thread_epoch: 1,
            thread_anchor: ctx.conversation_id.clone(),
            status: to_owned_string("active"),
            last_model: match model {
                Some(m) => Some(to_owned_string(m)),
                None => None,
            },
            last_switch_reason: None,
            created_at: now,
            updated_at: now,
            last_used_at: now,
        },
    )
}

/// What a claim gives: the bound account is not among the candidates, or
/// the claim created the binding, or it joined one created before.
pub open spec fn claim_result(selected: bool, created: bool) -> InitialBindingClaim {
    if !selected {
        InitialBindingClaim::BoundAccountUnavailable
    } else if created {
        InitialBindingClaim::Created
    } else {
        InitialBindingClaim::Joined
    }
}

/// Two requests of one conversation that claim its first binding get the
/// binding the store holds, and so the same account `account`. When the
/// store creates the binding for at most one of them, at most one result is
/// `Created`; each request that has the account among its candidates puts it
/// first and gets `Created` or `Joined`, the other gets
/// `BoundAccountUnavailable`.
pub proof fn lemma_claims_converge<T, U>(
    c1: Seq<Candidate<T>>,
    c2: Seq<Candidate<U>>,
    account: Seq<char>,
    created1: bool,
    created2: bool,
)
    requires
        !(created1 && created2),
    ensures
        ({
            let i1 = first_index_of(candidate_ids(c1), account);
            let i2 = first_index_of(candidate_ids(c2), account);
            &&& !(claim_result(i1 >= 0, created1) == InitialBindingClaim::Created && claim_result(
                i2 >= 0,
                created2,
            ) == InitialBindingClaim::Created)
            &&& i1 >= 0 ==> rotated(c1, i1)[0].account_id@ == account && claim_result(true, created1)
                != InitialBindingClaim::BoundAccountUnavailable
            &&& i2 >= 0 ==> rotated(c2, i2)[0].account_id@ == account && claim_result(true, created2)
                != InitialBindingClaim::BoundAccountUnavailable
            &&& i1 < 0 ==> claim_result(false, created1) == InitialBindingClaim::BoundAccountUnavailable
            &&& i2 < 0 ==> claim_result(false, created2) == InitialBindingClaim::BoundAccountUnavailable
        }),
{
    if first_index_of(candidate_ids(c1), account) >= 0 {
        lemma_rotate_to_account_puts_it_first(c1, account);
    }
    if first_index_of(candidate_ids(c2), account) >= 0 {
        lemma_rotate_to_account_puts_it_first(c2, account);
    }
}

/// Records the binding that the store holds after a claim (the proposal when
/// `created`, the binding another request claimed first otherwise) and rotates
/// the candidates to its account.
pub fn apply_claimed_binding<T>(
    routing: &mut ConversationRoutingContext,
    candidates: &mut Vec<Candidate<T>>,
    claimed: ConversationBinding,
    created: bool,
) -> (r: InitialBindingClaim)
    requires
        claimed.thread_epoch < i64::MAX,
    ensures
        ({
            let c = old(candidates)@;
            let idx = first_index_of(candidate_ids(c), claimed.account_id@);
            let selected = idx >= 0;
            &&& final(candidates)@ == (if selected {
                rotated(c, idx)
            } else {
                c
            })
            &&& selected ==> final(candidates)@[0].account_id@ == claimed.account_id@
            &&& final(routing).bound_account_selectable == selected
            &&& final(routing).binding_selected == selected
            &&& final(routing).next_thread_epoch == Some((claimed.thread_epoch + 1) as i64)
            &&& final(routing).existing_binding == Some(claimed)
            &&& final(routing).platform_key_hash == old(routing).platform_key_hash
            &&& final(routing).conversation_id == old(routing).conversation_id
            &&& final(routing).source == old(routing).source
            &&& final(routing).manual_preferred_account_id == old(
                routing,
            ).manual_preferred_account_id
            &&& r == claim_result(selected, created)
        }),
{
    let selected = rotate_to_account_id(candidates, claimed.account_id.as_str());
    proof {
        lemma_first_index_bounds(candidate_ids(old(candidates)@), claimed.account_id@);
        if selected {
            let c = old(candidates)@;
            let idx = first_index_of(candidate_ids(c), claimed.account_id@);
            assert(candidate_ids(c)[idx] == c[idx].account_id@);
            assert(rotated(c, idx)[0] == c[idx]);
        }
    }
    routing.bound_account_selectable = selected;
    routing.binding_selected = selected;
    routing.next_thread_epoch = Some(claimed.thread_epoch + 1);
    routing.existing_binding = Some(claimed);
    if !selected {
        InitialBindingClaim::BoundAccountUnavailable
    } else if created {
        InitialBindingClaim::Created
    } else {
        InitialBindingClaim::Joined
    }
}

/// When `switching` holds and the routing has a binding held by another
/// account than `account_id`, its thread epoch can still advance by one.
pub open spec fn epoch_fits_switch(
    routing: Option<&ConversationRoutingContext>,
    account_id: Seq<char>,
    switching: bool,
) -> bool {
    match routing {
        Some(ctx) => match ctx.existing_binding {
            Some(b) => (switching && b.account_id@ != account_id) ==> b.thread_epoch < i64::MAX,
            None => true,
        },
        None => true,
    }
}

/// The thread an attempt on `account_id` belongs to. Cache-affinity routes
/// carry no thread. On the bound account the binding's thread continues; on
/// another account the anchor stays (so the prompt cache key of the
/// conversation is stable) while the epoch advances and session affinity is
/// reset; a conversation without binding starts at its own id, epoch 1.
pub fn resolve_attempt_thread(routing: Option<&ConversationRoutingContext>, account_id: &str) -> (r:
    Option<ConversationThreadAttempt>)
    requires
        epoch_fits_switch(routing, account_id@, !(routing matches Some(ctx)
            && spec_is_cache_affinity(ctx.source))),
    ensures
        match routing {
            None => r is None,
            Some(ctx) => if spec_is_cache_affinity(ctx.source) {
                r is None
            } else {
                match ctx.existing_binding {
                    Some(b) => r matches Some(a) && {
                        &&& a.thread_anchor@ == b.thread_anchor@
                        &&& if b.account_id@ == account_id@ {
                            a.thread_epoch == b.thread_epoch && !a.reset_session_affinity
                        } else {
                            &&& a.thread_epoch == match ctx.next_thread_epoch {
                                Some(e) => e,
                                None => (b.thread_epoch + 1) as i64,
                            }
                            &&& a.reset_session_affinity
                        }
                    },
                    None => r matches Some(a) && a.thread_anchor@ == ctx.conversation_id@
                        && a.thread_epoch == 1 && !a.reset_session_affinity,
                }
            },
        },
{
    let ctx = match routing {
        Some(c) => c,
        None => return None,
    };
    if ctx.source.is_cache_affinity() {
        return None;
    }
    match &ctx.existing_binding {
        Some(b) => {
            if str_eq(b.account_id.as_str(), account_id) {
                Some(
                    ConversationThreadAttempt {
                        thread_anchor: b.thread_anchor.clone(),
                        thread_epoch: b.thread_epoch,
                        reset_session_affinity: false,
                    },
                )
            } else {
                Some(
                    ConversationThreadAttempt {
                        thread_anchor: b.thread_anchor.clone(),
                        thread_epoch: match ctx.next_thread_epoch {
                            Some(e) => e,
                            None => b.thread_epoch + 1,
                        },
                        reset_session_affinity: true,
                    },
                )
            }
        },
        None => Some(
            ConversationThreadAttempt {
                thread_anchor: ctx.conversation_id.clone(),
                thread_epoch: 1,
                reset_session_affinity: false,
            },
        ),
    }
}

/// What the binding store receives when a response finishes.
pub enum BindingWrite {
    /// Nothing changes.
    NoWrite,
    /// The bound account answered: its binding is touched.
    Touch {
        platform_key_hash: String,
        conversation_id: String,
        account_id: String,
        model: Option<String>,
        now: i64,
    },
    /// The binding is created or moved to the answering account.
    Upsert(ConversationBinding),
}

pub open spec fn opt_str_view(m: Option<&str>) -> Option<Seq<char>> {
    match m {
        Some(v) => Some(v@),
        None => None,
    }
}

pub open spec fn opt_string_view(m: Option<String>) -> Option<Seq<char>> {
    match m {
        Some(v) => Some(v@),
        None => None,
    }
}

/// The write for a terminal response of `account_id` with `status_code`: the
/// bound account is touched; a successful response (< 400) from another
/// account moves the binding there (the epoch advances and the anchor stays);
/// a successful first
/// response creates the binding when the route may create one; anything else
/// writes nothing.
pub fn terminal_binding_write(
    routing: Option<&ConversationRoutingContext>,
    account_id: &str,
    model: Option<&str>,
    status_code: u16,
    now: i64,
) -> (r: Result<BindingWrite, String>)
    requires
        epoch_fits_switch(routing, account_id@, status_code < 400),
    ensures
        r matches Ok(w) && match routing {
            None => w is NoWrite,
            Some(ctx) => match ctx.existing_binding {
                Some(b) => if b.account_id@ == account_id@ {
                    w matches BindingWrite::Touch {
                        platform_key_hash,
                        conversation_id,
                        account_id: a,
                        model: m,
                        now: t,
                    } && platform_key_hash@ == ctx.platform_key_hash@ && conversation_id@
                        == ctx.conversation_id@ && a@ == account_id@ && opt_string_view(m)
                        == opt_str_view(model) && t == now
                } else if status_code < 400 {
                    w matches BindingWrite::Upsert(n) && {
                        &&& n.platform_key_hash == b.platform_key_hash
                        &&& n.conversation_id == b.conversation_id
                        &&& n.account_id@ == account_id@
                        &&& n.thread_anchor@ == b.thread_anchor@
                        &&& n.thread_epoch == if spec_is_cache_affinity(ctx.source) {
                            (b.thread_epoch + 1) as i64
                        } else {
                            match ctx.next_thread_epoch {
                                Some(e) => e,
                                None => (b.thread_epoch + 1) as i64,
                            }
                        }
                        &&& n.status == b.status
                        &&& opt_string_view(n.last_model) == opt_str_view(model)
                        &&& (n.last_switch_reason matches Some(reason) && reason@ == if (
                        ctx.manual_preferred_account_id matches Some(mp) && mp@ == account_id@) {
                            "manual_account_switch"@
                        } else {
                            "automatic_account_switch"@
                        })
                        &&& n.created_at == b.created_at
                        &&& n.updated_at == now && n.last_used_at == now
                    }
                } else {
                    w is NoWrite
                },
                None => if status_code < 400 && spec_allows_initial_binding_create(ctx.source) {
                    w matches BindingWrite::Upsert(n) && {
                        &&& n.platform_key_hash@ == ctx.platform_key_hash@
                        &&& n.conversation_id@ == ctx.conversation_id@
                        &&& n.account_id@ == account_id@
                        &&& n.thread_anchor@ == ctx.conversation_id@
                        &&& n.thread_epoch == 1
                        &&& n.status@ == "active"@
                        &&& opt_string_view(n.last_model) == opt_str_view(model)
                        &&& n.last_switch_reason is None
                        &&& n.created_at == now && n.updated_at == now && n.last_used_at == now
                    }
                } else {
                    w is NoWrite
                },
            },
        },
{
    let ctx = match routing {
        Some(c) => c,
        None => return Ok(BindingWrite::NoWrite),
    };
    let owned_model = match model {
        Some(m) => Some(to_owned_string(m)),
        None => None,
    };
    match &ctx.existing_binding {
        Some(b) => {
            if str_eq(b.account_id.as_str(), account_id) {
                Ok(
                    BindingWrite::Touch {
                        platform_key_hash: ctx.platform_key_hash.clone(),
                        conversation_id: ctx.conversation_id.clone(),
                        account_id: to_owned_string(account_id),
                        model: owned_model,
                        now,
                    },
                )
            } else if status_code < 400 {
                let thread_epoch = if ctx.source.is_cache_affinity() {
                    b.thread_epoch + 1
                } else {
                    match ctx.next_thread_epoch {
                        Some(e) => e,
                        None => b.thread_epoch + 1,
                    }
                };
                let reason = switch_reason_for_account(ctx, account_id);
                let mut next = clone_binding(b);
                next.account_id = to_owned_string(account_id);
                next.thread_epoch = thread_epoch;
                next.thread_anchor = b.thread_anchor.clone();
                next.last_model = owned_model;
                next.last_switch_reason = Some(to_owned_string(reason));
                next.updated_at = now;
                next.last_used_at = now;
                Ok(BindingWrite::Upsert(next))
            } else {
                Ok(BindingWrite::NoWrite)
            }
        },
        None => {
            if status_code < 400 && ctx.source.allows_initial_binding_create() {
                Ok(
                    BindingWrite::Upsert(
                        ConversationBinding {
                            platform_key_hash: ctx.platform_key_hash.clone(),
                            conversation_id: ctx.conversation_id.clone(),
                            account_id: to_owned_string(account_id),
                            thread_epoch: 1,
                            thread_anchor: ctx.conversation_id.clone(),
                            status: to_owned_string("active"),
                            last_model: owned_model,
                            last_switch_reason: None,
                            created_at: now,
                            updated_at: now,
                            last_used_at: now,
                        },
                    ),
                )
            } else {
                Ok(BindingWrite::NoWrite)
            }
        },
    }
}

/// Rotating a candidate list keeps every candidate exactly once: the rotated
/// list is a permutation of the list it came from.
pub proof fn lemma_rotation_keeps_candidates<A>(s: Seq<A>, k: int)
    requires
        0 <= k <= s.len(),
    ensures
        rotated(s, k).to_multiset() == s.to_multiset(),
        rotated(s, k).len() == s.len(),
{
    let a = s.subrange(0, k);
    let b = s.subrange(k, s.len() as int);
    assert(s == a + b);
    vstd::seq_lib::lemma_multiset_commutative(b, a);
    vstd::seq_lib::lemma_multiset_commutative(a, b);
}

/// After rotating to an account, that account is first and the list is a
/// permutation of the list before.
pub proof fn lemma_rotate_to_account_puts_it_first<T>(c: Seq<Candidate<T>>, id: Seq<char>)
    requires
        first_index_of(candidate_ids(c), id) >= 0,
    ensures
        rotated(c, first_index_of(candidate_ids(c), id))[0].account_id@ == id,
        rotated(c, first_index_of(candidate_ids(c), id)).to_multiset() == c.to_multiset(),
{
    lemma_first_index_bounds(candidate_ids(c), id);
    let idx = first_index_of(candidate_ids(c), id);
    assert(candidate_ids(c)[idx] == c[idx].account_id@);
    assert(rotated(c, idx)[0] == c[idx]);
    lemma_rotation_keeps_candidates(c, idx);
}


/// Lower-case hexadecimal text of the bytes.
pub fn hex_lower_string(bytes: &Vec<u8>) -> (r: String)
    ensures
        r@ == hex_lower(bytes@),
{
    let mut out: Vec<char> = Vec::new();
    let mut i: usize = 0;
    while i < bytes.len()
        invariant
            i <= bytes@.len(),
            out@ == hex_lower(bytes@.subrange(0, i as int)),
        decreases bytes.len() - i,
    {
        let b = bytes[i];
        out.push(hex_digit_exec(b / 16));
        out.push(hex_digit_exec(b % 16));
        proof {
            let s = bytes@.subrange(0, i + 1);
            assert(s.drop_last() == bytes@.subrange(0, i as int));
            assert(s.last() == b);
        }
        i = i + 1;
    }
    proof {
        assert(bytes@.subrange(0, bytes@.len() as int) =~= bytes@);
    }
    string_from_chars(out.as_slice())
}

} // verus!
