//! Access control and input hygiene.
//!
//! Tracks which permissions a command demands, which roles a user carries
//! per guild, and which users are blocked outright, and scrubs untrusted
//! text before it is echoed back to a channel.  Users, guilds and
//! permission sets are carried as the numeric values the chat platform
//! assigns them.  Checking a member's actual permissions against the
//! platform is the caller's business.

use vstd::prelude::*;

use crate::kvmap::{kv_distinct, kv_map, lemma_kv_contains, lemma_kv_push, lemma_kv_update,
    lemma_kv_value_at};
use crate::text::{replace_all, replace_all_exec, starts_with_text};

verus! {

/// What `escape_markdown` produces: every markdown control character
/// prefixed with a backslash, one kind after the other.
pub open spec fn escaped_markdown(s: Seq<char>) -> Seq<char> {
    replace_all(
        replace_all(
            replace_all(replace_all(s, "*"@, "\\*"@), "_"@, "\\_"@),
            "`"@,
            "\\`"@,
        ),
        "~"@,
        "\\~"@,
    )
}

/// What `sanitize_input` produces: angle brackets turned into entities.
pub open spec fn sanitized(s: Seq<char>) -> Seq<char> {
    replace_all(replace_all(s, "<"@, "&lt;"@), ">"@, "&gt;"@)
}

/// Whether `url` names one of the two web schemes.
pub open spec fn is_web_url(url: Seq<char>) -> bool {
    ("http://"@.len() <= url.len() && url.take("http://"@.len() as int) == "http://"@) || (
    "https://"@.len() <= url.len() && url.take("https://"@.len() as int) == "https://"@)
}

/// The role entries as their mathematical reading.
spec fn role_views(
    s: Seq<((u64, u64), Vec<String>)>,
) -> Seq<((u64, u64), Seq<Seq<char>>)> {
    s.map_values(|e: ((u64, u64), Vec<String>)| (e.0, e.1@.map_values(|r: String| r@)))
}

/// The permission entries as their mathematical reading.
spec fn perm_views(s: Seq<(String, u64)>) -> Seq<(Seq<char>, u64)> {
    s.map_values(|e: (String, u64)| (e.0@, e.1))
}

/// The rate-limit entries as their mathematical reading.
spec fn limit_views(s: Seq<(String, (u32, u64))>) -> Seq<(Seq<char>, (u32, u64))> {
    s.map_values(|e: (String, (u32, u64))| (e.0@, e.1))
}

/// Abstract security state.
pub ghost struct SecurityState {
    /// Permission bits each command demands.
    pub command_permissions: Map<Seq<char>, u64>,
    /// Role names per `(guild, user)`.
    pub user_roles: Map<(u64, u64), Seq<Seq<char>>>,
    /// Users blocked outright, as recorded, oldest first.
    pub blocked_users: Seq<u64>,
    /// Per-command rate limits: `(count, window in milliseconds)`.
    pub rate_limits: Map<Seq<char>, (u32, u64)>,
}

/// Block lists, role tables, and the text scrubbers.
pub struct SecurityManager {
    command_permissions: Vec<(String, u64)>,
    user_roles: Vec<((u64, u64), Vec<String>)>,
    blocked_users: Vec<u64>,
    rate_limits: Vec<(String, (u32, u64))>,
}

impl View for SecurityManager {
    type V = SecurityState;

    closed spec fn view(&self) -> SecurityState {
        SecurityState {
            command_permissions: kv_map(perm_views(self.command_permissions@)),
            user_roles: kv_map(role_views(self.user_roles@)),
            blocked_users: self.blocked_users@,
            rate_limits: kv_map(limit_views(self.rate_limits@)),
        }
    }
}

impl SecurityManager {
    /// Internal shape: each table keys its entries at most once, and the
    /// block list records a user at most once.  Established by `new` and
    /// preserved by every method.
    pub closed spec fn wf(&self) -> bool {
        &&& kv_distinct(perm_views(self.command_permissions@))
        &&& kv_distinct(role_views(self.user_roles@))
        &&& kv_distinct(limit_views(self.rate_limits@))
        &&& forall|i: int, j: int|
            0 <= i < j < self.blocked_users@.len() ==> self.blocked_users@[i]
                != self.blocked_users@[j]
    }

    /// Creates a manager with nothing restricted and nobody blocked.
    pub fn new() -> (r: Self)
        ensures
            r.wf(),
            r@.command_permissions == Map::<Seq<char>, u64>::empty(),
            r@.user_roles == Map::<(u64, u64), Seq<Seq<char>>>::empty(),
            r@.blocked_users == Seq::<u64>::empty(),
            r@.rate_limits == Map::<Seq<char>, (u32, u64)>::empty(),
    {
        let r = SecurityManager {
            command_permissions: Vec::new(),
            user_roles: Vec::new(),
            blocked_users: Vec::new(),
            rate_limits: Vec::new(),
        };
        proof {
            assert(perm_views(r.command_permissions@) =~= Seq::<(Seq<char>, u64)>::empty());
            assert(role_views(r.user_roles@) =~= Seq::<((u64, u64), Seq<Seq<char>>)>::empty());
            assert(limit_views(r.rate_limits@) =~= Seq::<(Seq<char>, (u32, u64))>::empty());
        }
        r
    }

    /// Demands `permissions` of every caller of `command_name` from now on.
    pub fn set_command_permissions(&mut self, command_name: &str, permissions: u64)
        requires
            old(self).wf(),
        ensures
            final(self).wf(),
            final(self)@ == (SecurityState {
                command_permissions: old(self)@.command_permissions.insert(
                    command_name@,
                    permissions,
                ),
                ..old(self)@
            }),
    {
        let k = command_name.to_owned();
        let ghost vs0 = perm_views(self.command_permissions@);
        match find_str_key(&self.command_permissions, &k) {
            Some(i) => {
                self.command_permissions[i] = (k, permissions);
                proof {
                    assert(perm_views(self.command_permissions@) =~= vs0.update(
                        i as int,
                        (command_name@, permissions),
                    ));
                    lemma_kv_update(vs0, i as int, (command_name@, permissions));
                    assert forall|a: int, b: int|
                        0 <= a < b < perm_views(self.command_permissions@).len() implies perm_views(
                        self.command_permissions@,
                    )[a].0 != perm_views(self.command_permissions@)[b].0 by {
                        assert(vs0[a].0 == perm_views(self.command_permissions@)[a].0);
                        assert(vs0[b].0 == perm_views(self.command_permissions@)[b].0);
                    }
                }
            },
            None => {
                self.command_permissions.push((k, permissions));
                proof {
                    assert(perm_views(self.command_permissions@) =~= vs0.push(
                        (command_name@, permissions),
                    ));
                    lemma_kv_push(vs0, (command_name@, permissions));
                    lemma_kv_contains(vs0, command_name@);
                    assert forall|a: int, b: int|
                        0 <= a < b < perm_views(self.command_permissions@).len() implies perm_views(
                        self.command_permissions@,
                    )[a].0 != perm_views(self.command_permissions@)[b].0 by {
                        if b < vs0.len() {
                            assert(vs0[a].0 != vs0[b].0);
                        } else {
                            assert(perm_views(self.command_permissions@)[b].0 == command_name@);
                            assert(perm_views(self.command_permissions@)[a].0 == vs0[a].0);
                        }
                    }
                }
            },
        }
    }

    /// The permission bits demanded of `command_name`, if any are set.
    pub fn get_command_permissions(&self, command_name: &str) -> (r: Option<u64>)
        requires
            self.wf(),
        ensures
            match r {
                Some(p) => self@.command_permissions.contains_key(command_name@)
                    && p == self@.command_permissions[command_name@],
                None => !self@.command_permissions.contains_key(command_name@),
            },
    {
        let k = command_name.to_owned();
        match find_str_key(&self.command_permissions, &k) {
            Some(i) => {
                proof {
                    lemma_kv_value_at(perm_views(self.command_permissions@), i as int);
                }
                Some(self.command_permissions[i].1)
            },
            None => {
                proof {
                    lemma_kv_contains(perm_views(self.command_permissions@), command_name@);
                }
                None
            },
        }
    }

    /// Records `roles` as the full role set of `user_id` in `guild_id`,
    /// replacing whatever was recorded before.
    pub fn set_user_roles(&mut self, guild_id: u64, user_id: u64, roles: Vec<String>)
        requires
            old(self).wf(),
        ensures
            final(self).wf(),
            final(self)@ == (SecurityState {
                user_roles: old(self)@.user_roles.insert(
                    (guild_id, user_id),
                    roles@.map_values(|r: String| r@),
                ),
                ..old(self)@
            }),
    {
        let ghost vs0 = role_views(self.user_roles@);
        let ghost e = ((guild_id, user_id), roles@.map_values(|r: String| r@));
        match find_role_key(&self.user_roles, guild_id, user_id) {
            Some(i) => {
                self.user_roles[i] = ((guild_id, user_id), roles);
                proof {
                    assert(role_views(self.user_roles@) =~= vs0.update(i as int, e));
                    lemma_kv_update(vs0, i as int, e);
                    assert forall|a: int, b: int|
                        0 <= a < b < role_views(self.user_roles@).len() implies role_views(
                        self.user_roles@,
                    )[a].0 != role_views(self.user_roles@)[b].0 by {
                        assert(vs0[a].0 == role_views(self.user_roles@)[a].0);
                        assert(vs0[b].0 == role_views(self.user_roles@)[b].0);
                    }
                }
            },
            None => {
                self.user_roles.push(((guild_id, user_id), roles));
                proof {
                    assert(role_views(self.user_roles@) =~= vs0.push(e));
                    lemma_kv_push(vs0, e);
                    lemma_kv_contains(vs0, (guild_id, user_id));
                    assert forall|a: int, b: int|
                        0 <= a < b < role_views(self.user_roles@).len() implies role_views(
                        self.user_roles@,
                    )[a].0 != role_views(self.user_roles@)[b].0 by {
                        if b < vs0.len() {
                            assert(vs0[a].0 != vs0[b].0);
                        } else {
                            assert(role_views(self.user_roles@)[b].0 == (guild_id, user_id));
                            assert(role_views(self.user_roles@)[a].0 == vs0[a].0);
                        }
                    }
                }
            },
        }
    }

    /// The recorded roles of `user_id` in `guild_id`; empty when none were
    /// ever set.
    pub fn get_user_roles(&self, guild_id: u64, user_id: u64) -> (r: Vec<String>)
        requires
            self.wf(),
        ensures
            r@.map_values(|s: String| s@) == if self@.user_roles.contains_key(
                (guild_id, user_id),
            ) {
                self@.user_roles[(guild_id, user_id)]
            } else {
                Seq::<Seq<char>>::empty()
            },
    {
        match find_role_key(&self.user_roles, guild_id, user_id) {
            Some(i) => {
                proof {
                    lemma_kv_value_at(role_views(self.user_roles@), i as int);
                }
                let src = &self.user_roles[i].1;
                let mut r: Vec<String> = Vec::new();
                let mut j: usize = 0;
                while j < src.len()
                    invariant
                        j <= src@.len(),
                        r@.map_values(|s: String| s@) == src@.map_values(
                            |s: String| s@,
                        ).take(j as int),
                    decreases src@.len() - j,
                {
                    let ghost pre = r@.map_values(|s: String| s@);
                    r.push(src[j].clone());
                    proof {
                        assert(r@.map_values(|s: String| s@) =~= pre.push(src@[j as int]@));
                        assert(src@.map_values(|s: String| s@).take(j as int).push(
                            src@.map_values(|s: String| s@)[j as int],
                        ) =~= src@.map_values(|s: String| s@).take(j as int + 1));
                    }
                    j += 1;
                }
                proof {
                    assert(src@.map_values(|s: String| s@).take(src@.len() as int)
                        =~= src@.map_values(|s: String| s@));
                }
                r
            },
            None => {
                proof {
                    lemma_kv_contains(role_views(self.user_roles@), (guild_id, user_id));
                    assert(Seq::<String>::empty().map_values(|s: String| s@)
                        =~= Seq::<Seq<char>>::empty());
                }
                Vec::new()
            },
        }
    }

    /// Whether `user_id` carries `role` in `guild_id`.
    pub fn has_role(&self, guild_id: u64, user_id: u64, role: &str) -> (r: bool)
        requires
            self.wf(),
        ensures
            r == (self@.user_roles.contains_key((guild_id, user_id)) && self@.user_roles[
                (guild_id, user_id)
            ].contains(role@)),
    {
        let k = role.to_owned();
        match find_role_key(&self.user_roles, guild_id, user_id) {
            Some(i) => {
                let ghost rv = self.user_roles@[i as int].1@.map_values(|s: String| s@);
                proof {
                    lemma_kv_value_at(role_views(self.user_roles@), i as int);
                    assert(role_views(self.user_roles@)[i as int].1 == rv);
                    assert(self@.user_roles[(guild_id, user_id)] == rv);
                }
                let roles = &self.user_roles[i].1;
                let mut j: usize = 0;
                while j < roles.len()
                    invariant
                        j <= roles@.len(),
                        rv == roles@.map_values(|s: String| s@),
                        self@.user_roles.contains_key((guild_id, user_id)),
                        self@.user_roles[(guild_id, user_id)] == rv,
                        forall|x: int| 0 <= x < j ==> roles@[x]@ != k@,
                        k@ == role@,
                    decreases roles@.len() - j,
                {
                    if roles[j] == k {
                        proof {
                            assert(rv[j as int] == roles@[j as int]@);
                        }
                        return true;
                    }
                    j += 1;
                }
                proof {
                    assert forall|x: int| 0 <= x < rv.len() implies rv[x] != role@ by {
                        assert(rv[x] == roles@[x]@);
                    }
                }
                false
            },
            None => {
                proof {
                    lemma_kv_contains(role_views(self.user_roles@), (guild_id, user_id));
                }
                false
            },
        }
    }

    /// Blocks `user_id` outright; blocking twice records the user once.
    pub fn block_user(&mut self, user_id: u64)
        requires
            old(self).wf(),
        ensures
            final(self).wf(),
            final(self)@ == (SecurityState {
                blocked_users: if old(self)@.blocked_users.contains(user_id) {
                    old(self)@.blocked_users
                } else {
                    old(self)@.blocked_users.push(user_id)
                },
                ..old(self)@
            }),
    {
        if !contains_u64(&self.blocked_users, user_id) {
            self.blocked_users.push(user_id);
            proof {
                assert forall|i: int, j: int|
                    0 <= i < j < self.blocked_users@.len() implies self.blocked_users@[i]
                    != self.blocked_users@[j] by {
                    if j < self.blocked_users@.len() - 1 {
                        assert(self.blocked_users@[i] == old(self).blocked_users@[i]);
                        assert(self.blocked_users@[j] == old(self).blocked_users@[j]);
                    } else {
                        assert(self.blocked_users@[j] == user_id);
                        assert(self.blocked_users@[i] == old(self).blocked_users@[i]);
                    }
                }
            }
        }
    }

    /// Lifts `user_id`'s block, if one was recorded.
    pub fn unblock_user(&mut self, user_id: u64)
        requires
            old(self).wf(),
        ensures
            final(self).wf(),
            final(self)@ == (SecurityState {
                blocked_users: without_u64(old(self)@.blocked_users, user_id),
                ..old(self)@
            }),
    {
        let ghost b0 = self.blocked_users@;
        let mut kept: Vec<u64> = Vec::new();
        let mut i: usize = 0;
        while i < self.blocked_users.len()
            invariant
                *self == *old(self),
                old(self).wf(),
                i <= self.blocked_users@.len(),
                b0 == self.blocked_users@,
                kept@ == without_u64(b0.take(i as int), user_id),
            decreases self.blocked_users@.len() - i,
        {
            proof {
                assert(b0.take(i as int + 1).drop_last() =~= b0.take(i as int));
                assert(b0.take(i as int + 1).last() == b0[i as int]);
            }
            let u = self.blocked_users[i];
            if u != user_id {
                kept.push(u);
            }
            i += 1;
        }
        self.blocked_users = kept;
        proof {
            assert(b0.take(b0.len() as int) =~= b0);
            lemma_without_u64(b0, user_id);
        }
    }

    /// Whether `user_id` is currently blocked.
    pub fn is_user_blocked(&self, user_id: u64) -> (r: bool)
        ensures
            r == self@.blocked_users.contains(user_id),
    {
        contains_u64(&self.blocked_users, user_id)
    }

    /// Installs or replaces the per-command rate limit `(limit, window)`.
    pub fn set_rate_limit(&mut self, command_name: &str, limit: u32, window_ms: u64)
        requires
            old(self).wf(),
        ensures
            final(self).wf(),
            final(self)@ == (SecurityState {
                rate_limits: old(self)@.rate_limits.insert(command_name@, (limit, window_ms)),
                ..old(self)@
            }),
    {
        let k = command_name.to_owned();
        let ghost vs0 = limit_views(self.rate_limits@);
        let ghost e = (command_name@, (limit, window_ms));
        match find_limit_key(&self.rate_limits, &k) {
            Some(i) => {
                self.rate_limits[i] = (k, (limit, window_ms));
                proof {
                    assert(limit_views(self.rate_limits@) =~= vs0.update(i as int, e));
                    lemma_kv_update(vs0, i as int, e);
                    assert forall|a: int, b: int|
                        0 <= a < b < limit_views(self.rate_limits@).len() implies limit_views(
                        self.rate_limits@,
                    )[a].0 != limit_views(self.rate_limits@)[b].0 by {
                        assert(vs0[a].0 == limit_views(self.rate_limits@)[a].0);
                        assert(vs0[b].0 == limit_views(self.rate_limits@)[b].0);
                    }
                }
            },
            None => {
                self.rate_limits.push((k, (limit, window_ms)));
                proof {
                    assert(limit_views(self.rate_limits@) =~= vs0.push(e));
                    lemma_kv_push(vs0, e);
                    lemma_kv_contains(vs0, command_name@);
                    assert forall|a: int, b: int|
                        0 <= a < b < limit_views(self.rate_limits@).len() implies limit_views(
                        self.rate_limits@,
                    )[a].0 != limit_views(self.rate_limits@)[b].0 by {
                        if b < vs0.len() {
                            assert(vs0[a].0 != vs0[b].0);
                        } else {
                            assert(limit_views(self.rate_limits@)[b].0 == command_name@);
                            assert(limit_views(self.rate_limits@)[a].0 == vs0[a].0);
                        }
                    }
                }
            },
        }
    }

    /// The per-command gate.  Enforcement lives in the dedicated rate
    /// limiter; this gate admits every call and exists so callers have one
    /// place to consult.
    pub fn check_rate_limit(&self, command_name: &str, user_id: u64) -> (r: bool)
        ensures
            r,
    {
        let _ = command_name;
        let _ = user_id;
        true
    }

    /// Whether `url` names one of the two web schemes.
    pub fn validate_url(&self, url: &str) -> (r: bool)
        ensures
            r == is_web_url(url@),
    {
        proof {
            reveal_strlit("http://");
            reveal_strlit("https://");
        }
        starts_with_text(url, "http://") || starts_with_text(url, "https://")
    }

    /// `text` with every markdown control character escaped, so the chat
    /// platform renders it verbatim.
    pub fn escape_markdown(&self, text: &str) -> (r: String)
        ensures
            r@ == escaped_markdown(text@),
    {
        proof {
            reveal_strlit("*");
            reveal_strlit("\\*");
            reveal_strlit("_");
            reveal_strlit("\\_");
            reveal_strlit("`");
            reveal_strlit("\\`");
            reveal_strlit("~");
            reveal_strlit("\\~");
        }
        let s1 = replace_all_exec(text, "*", "\\*");
        let s2 = replace_all_exec(s1.as_str(), "_", "\\_");
        let s3 = replace_all_exec(s2.as_str(), "`", "\\`");
        replace_all_exec(s3.as_str(), "~", "\\~")
    }

    /// `input` with angle brackets turned into entities, so untrusted text
    /// cannot smuggle markup.
    pub fn sanitize_input(&self, input: &str) -> (r: String)
        ensures
            r@ == sanitized(input@),
    {
        proof {
            reveal_strlit("<");
            reveal_strlit("&lt;");
            reveal_strlit(">");
            reveal_strlit("&gt;");
        }
        let s1 = replace_all_exec(input, "<", "&lt;");
        replace_all_exec(s1.as_str(), ">", "&gt;")
    }
}

/// `s` with every occurrence of `u` removed, order kept.
pub open spec fn without_u64(s: Seq<u64>, u: u64) -> Seq<u64>
    decreases s.len(),
{
    if s.len() == 0 {
        Seq::empty()
    } else {
        let rest = without_u64(s.drop_last(), u);
        if s.last() == u {
            rest
        } else {
            rest.push(s.last())
        }
    }
}

/// Removal keeps the remaining entries distinct and removes exactly `u`.
pub proof fn lemma_without_u64(s: Seq<u64>, u: u64)
    requires
        forall|i: int, j: int| 0 <= i < j < s.len() ==> s[i] != s[j],
    ensures
        forall|i: int, j: int|
            0 <= i < j < without_u64(s, u).len() ==> without_u64(s, u)[i] != without_u64(s, u)[j],
        forall|i: int| 0 <= i < without_u64(s, u).len() ==> without_u64(s, u)[i] != u && s.contains(
            #[trigger] without_u64(s, u)[i],
        ),
        forall|x: u64| s.contains(x) && x != u ==> without_u64(s, u).contains(x),
    decreases s.len(),
{
    if s.len() > 0 {
        let dl = s.drop_last();
        let rest = without_u64(dl, u);
        assert(forall|i: int| 0 <= i < dl.len() ==> dl[i] == s[i]);
        lemma_without_u64(dl, u);
        assert forall|i: int|
            0 <= i < rest.len() implies rest[i] != u && s.contains(#[trigger] rest[i]) by {
            let c = choose|c: int| 0 <= c < dl.len() && dl[c] == rest[i];
            assert(s[c] == rest[i]);
        }
        let w = without_u64(s, u);
        if s.last() != u {
            assert(w == rest.push(s.last()));
            assert forall|i: int, j: int| 0 <= i < j < w.len() implies w[i] != w[j] by {
                if j == w.len() - 1 {
                    assert(w[i] == rest[i]);
                    assert(w[j] == s.last());
                    assert(s.contains(rest[i]));
                    let c = choose|c: int| 0 <= c < dl.len() && dl[c] == rest[i];
                    assert(s[c] != s[s.len() - 1]);
                } else {
                    assert(w[i] == rest[i] && w[j] == rest[j]);
                }
            }
            assert forall|x: u64| s.contains(x) && x != u implies w.contains(x) by {
                let c = choose|c: int| 0 <= c < s.len() && s[c] == x;
                if c < s.len() - 1 {
                    assert(dl[c] == x);
                    assert(dl.contains(x));
                    assert(rest.contains(x));
                    let d = choose|d: int| 0 <= d < rest.len() && rest[d] == x;
                    assert(w[d] == x);
                } else {
                    assert(w[w.len() - 1] == x);
                }
            }
        } else {
            assert(w == rest);
            assert forall|x: u64| s.contains(x) && x != u implies w.contains(x) by {
                let c = choose|c: int| 0 <= c < s.len() && s[c] == x;
                assert(c < s.len() - 1);
                assert(dl[c] == x);
                assert(dl.contains(x));
            }
        }
    }
}

/// Whether `u` occurs in `v`.
fn contains_u64(v: &Vec<u64>, u: u64) -> (b: bool)
    ensures
        b == v@.contains(u),
{
    let mut i: usize = 0;
    while i < v.len()
        invariant
            i <= v@.len(),
            forall|j: int| 0 <= j < i ==> v@[j] != u,
        decreases v@.len() - i,
    {
        if v[i] == u {
            return true;
        }
        i += 1;
    }
    false
}

/// Index of the entry keyed by `key`, if any.
fn find_str_key(v: &Vec<(String, u64)>, key: &String) -> (r: Option<usize>)
    ensures
        match r {
            Some(i) => i < v@.len() && v@[i as int].0@ == key@,
            None => !kv_map(perm_views(v@)).contains_key(key@),
        },
{
    let mut i: usize = 0;
    while i < v.len()
        invariant
            i <= v@.len(),
            forall|j: int| 0 <= j < i ==> v@[j].0@ != key@,
        decreases v@.len() - i,
    {
        if v[i].0 == *key {
            return Some(i);
        }
        i += 1;
    }
    proof {
        lemma_kv_contains(perm_views(v@), key@);
        assert forall|j: int| 0 <= j < perm_views(v@).len() implies perm_views(v@)[j].0
            != key@ by {
            assert(perm_views(v@)[j].0 == v@[j].0@);
        }
    }
    None
}

/// Index of the entry keyed by `(guild_id, user_id)`, if any.
fn find_role_key(v: &Vec<((u64, u64), Vec<String>)>, guild_id: u64, user_id: u64) -> (r: Option<
    usize,
>)
    ensures
        match r {
            Some(i) => i < v@.len() && v@[i as int].0 == (guild_id, user_id),
            None => !kv_map(role_views(v@)).contains_key((guild_id, user_id)),
        },
{
    let mut i: usize = 0;
    while i < v.len()
        invariant
            i <= v@.len(),
            forall|j: int| 0 <= j < i ==> v@[j].0 != (guild_id, user_id),
        decreases v@.len() - i,
    {
        if v[i].0.0 == guild_id && v[i].0.1 == user_id {
            return Some(i);
        }
        i += 1;
    }
    proof {
        lemma_kv_contains(role_views(v@), (guild_id, user_id));
        assert forall|j: int| 0 <= j < role_views(v@).len() implies role_views(v@)[j].0 != (
        guild_id, user_id) by {
            assert(role_views(v@)[j].0 == v@[j].0);
        }
    }
    None
}

/// Index of the entry keyed by `key`, if any.
fn find_limit_key(v: &Vec<(String, (u32, u64))>, key: &String) -> (r: Option<usize>)
    ensures
        match r {
            Some(i) => i < v@.len() && v@[i as int].0@ == key@,
            None => !kv_map(limit_views(v@)).contains_key(key@),
        },
{
    let mut i: usize = 0;
    while i < v.len()
        invariant
            i <= v@.len(),
            forall|j: int| 0 <= j < i ==> v@[j].0@ != key@,
        decreases v@.len() - i,
    {
        if v[i].0 == *key {
            return Some(i);
        }
        i += 1;
    }
    proof {
        lemma_kv_contains(limit_views(v@), key@);
        assert forall|j: int| 0 <= j < limit_views(v@).len() implies limit_views(v@)[j].0
            != key@ by {
            assert(limit_views(v@)[j].0 == v@[j].0@);
        }
    }
    None
}

} // verus!
