use vstd::prelude::*;

verus! {

/// Width of a rating tier: tier `t` covers the ratings `100 * t` to `100 * t + 99`.
pub const TIER_WIDTH: u32 = 100;

/// The tier of a rating, by inclusive bands of `TIER_WIDTH` points.
pub open spec fn tier_of(rating: u32) -> u32 {
    rating / 100
}

/// The tier of a rating.
pub fn tier(rating: u32) -> (r: u32)
    ensures
        r == tier_of(rating),
{
    rating / TIER_WIDTH
}

/// One cached assignment: in guild `guild_id`, tier `tier` is given by role `role_id`.
#[derive(Debug, Clone, Copy, PartialEq, Eq, Structural)]
pub struct TierRole {
    pub guild_id: u64,
    pub tier: u32,
    pub role_id: u64,
}

/// Why a role could not be registered.
#[derive(Debug, Clone, Copy, PartialEq, Eq, Structural)]
pub enum RoleError {
    /// The role already stands for another tier of the same guild.
    RoleInUse,
}

/// The role changes that bring an account's roles in a guild in line with its rating.
#[derive(Debug)]
pub enum SyncPlan {
    /// The guild has no role for this tier yet: create one and register it.
    NeedRole { tier: u32 },
    /// Grant `add` (where present) and take away each role of `remove`.
    Apply { add: Option<u64>, remove: Vec<u64> },
}

/// The registry of rating-tier roles, per guild and tier.
#[derive(Debug)]
pub struct GuildRoleManager {
    entries: Vec<TierRole>,
}

pub open spec fn entry_key(e: TierRole) -> (u64, u32) {
    (e.guild_id, e.tier)
}

/// Within one guild, no two tiers share a role.
pub open spec fn roles_distinct(m: Map<(u64, u32), u64>) -> bool {
    forall|a: (u64, u32), b: (u64, u32)|
        #![trigger m[a], m[b]]
        m.contains_key(a) && m.contains_key(b) && a.0 == b.0 && a != b ==> m[a] != m[b]
}

/// `r` stands for some tier of guild `g`.
pub open spec fn is_tier_role(m: Map<(u64, u32), u64>, g: u64, r: u64) -> bool {
    exists|t: u32| #[trigger] m.contains_key((g, t)) && m[(g, t)] == r
}

/// The roles an account holds in guild `g` after a sync to the tier role `target`:
/// every other tier role of the guild is gone, `target` is held, the rest is kept.
pub open spec fn after_sync(m: Map<(u64, u32), u64>, g: u64, held: Set<u64>, target: u64) -> Set<
    u64,
> {
    held.filter(|r: u64| !is_tier_role(m, g, r) || r == target).insert(target)
}

/// The role of the tier that `rating` falls in, where guild `g` has one.
pub open spec fn sync_target(m: Map<(u64, u32), u64>, g: u64, rating: u32) -> Option<u64> {
    if m.contains_key((g, tier_of(rating))) {
        Some(m[(g, tier_of(rating))])
    } else {
        None
    }
}

/// The held roles that a sync to `target` takes away.
pub open spec fn stale_roles(m: Map<(u64, u32), u64>, g: u64, held: Set<u64>, target: u64) -> Set<
    u64,
> {
    held.filter(|r: u64| is_tier_role(m, g, r) && r != target)
}

/// The role that a sync to `target` grants: none where it is already held.
pub open spec fn granted_role(held: Set<u64>, target: u64) -> Option<u64> {
    if held.contains(target) {
        None
    } else {
        Some(target)
    }
}

/// The plan `sync_role` yields on a registry with roles `m`.
pub open spec fn plan_matches(
    p: SyncPlan,
    m: Map<(u64, u32), u64>,
    g: u64,
    held: Set<u64>,
    rating: u32,
) -> bool {
    match sync_target(m, g, rating) {
        None => p == (SyncPlan::NeedRole { tier: tier_of(rating) }),
        Some(target) => match p {
            SyncPlan::Apply { add, remove } => add == granted_role(held, target)
                && remove@.to_set() == stale_roles(m, g, held, target),
            SyncPlan::NeedRole { .. } => false,
        },
    }
}

spec fn seq_roles(s: Seq<TierRole>) -> Map<(u64, u32), u64> {
    Map::new(
        |k: (u64, u32)| exists|i: int| 0 <= i < s.len() && entry_key(#[trigger] s[i]) == k,
        |k: (u64, u32)| s[choose|i: int| 0 <= i < s.len() && entry_key(#[trigger] s[i]) == k].role_id,
    )
}

spec fn keys_unique(s: Seq<TierRole>) -> bool {
    forall|i: int, j: int|
        0 <= i < s.len() && 0 <= j < s.len() && i != j ==> entry_key(#[trigger] s[i]) != entry_key(
            #[trigger] s[j],
        )
}

impl GuildRoleManager {
    /// The tier roles known, by guild and tier.
    pub closed spec fn roles(&self) -> Map<(u64, u32), u64> {
        seq_roles(self.entries@)
    }

    pub closed spec fn wf(&self) -> bool {
        keys_unique(self.entries@) && roles_distinct(self.roles())
    }

    proof fn lemma_entry(&self, i: int)
        requires
            keys_unique(self.entries@),
            0 <= i < self.entries@.len(),
        ensures
            self.roles().contains_key(entry_key(self.entries@[i])),
            self.roles()[entry_key(self.entries@[i])] == self.entries@[i].role_id,
    {
        let s = self.entries@;
        let k = entry_key(s[i]);
        assert(exists|j: int| 0 <= j < s.len() && entry_key(#[trigger] s[j]) == k);
        let j = choose|j: int| 0 <= j < s.len() && entry_key(#[trigger] s[j]) == k;
        assert(j == i);
    }

    proof fn lemma_push(s: Seq<TierRole>, e: TierRole)
        requires
            keys_unique(s),
            !seq_roles(s).contains_key(entry_key(e)),
        ensures
            keys_unique(s.push(e)),
            seq_roles(s.push(e)) == seq_roles(s).insert(entry_key(e), e.role_id),
    {
        let t = s.push(e);
        assert forall|i: int| 0 <= i < s.len() implies entry_key(#[trigger] s[i]) != entry_key(e) by {
            if entry_key(s[i]) == entry_key(e) {
                assert(seq_roles(s).contains_key(entry_key(e)));
            }
        }
        assert(keys_unique(t));
        let a = seq_roles(t);
        let b = seq_roles(s).insert(entry_key(e), e.role_id);
        assert forall|k: (u64, u32)| a.contains_key(k) <==> b.contains_key(k) by {
            if a.contains_key(k) {
                let i = choose|i: int| 0 <= i < t.len() && entry_key(#[trigger] t[i]) == k;
                if i < s.len() {
                    assert(s[i] == t[i]);
                }
            }
            if seq_roles(s).contains_key(k) {
                let i = choose|i: int| 0 <= i < s.len() && entry_key(#[trigger] s[i]) == k;
                assert(t[i] == s[i]);
            }
            if k == entry_key(e) {
                assert(entry_key(t[s.len() as int]) == k);
            }
        }
        assert forall|k: (u64, u32)| a.contains_key(k) implies a[k] == b[k] by {
            let i = choose|i: int| 0 <= i < t.len() && entry_key(#[trigger] t[i]) == k;
            if k != entry_key(e) {
                assert(i < s.len());
                assert(t[i] == s[i]);
                let j = choose|j: int| 0 <= j < s.len() && entry_key(#[trigger] s[j]) == k;
                assert(t[j] == s[j]);
                assert(i == j);
            } else {
                assert(entry_key(t[s.len() as int]) == k);
                assert(i == s.len());
            }
        }
        assert(a =~= b);
    }

    proof fn lemma_update(s: Seq<TierRole>, n: int, e: TierRole)
        requires
            keys_unique(s),
            0 <= n < s.len(),
            entry_key(s[n]) == entry_key(e),
        ensures
            keys_unique(s.update(n, e)),
            seq_roles(s.update(n, e)) == seq_roles(s).insert(entry_key(e), e.role_id),
    {
        let t = s.update(n, e);
        assert forall|i: int, j: int|
            0 <= i < t.len() && 0 <= j < t.len() && i != j implies entry_key(#[trigger] t[i])
            != entry_key(#[trigger] t[j]) by {
            assert(entry_key(t[i]) == entry_key(s[i]));
            assert(entry_key(t[j]) == entry_key(s[j]));
        }
        let a = seq_roles(t);
        let b = seq_roles(s).insert(entry_key(e), e.role_id);
        assert forall|k: (u64, u32)| a.contains_key(k) <==> b.contains_key(k) by {
            if a.contains_key(k) {
                let i = choose|i: int| 0 <= i < t.len() && entry_key(#[trigger] t[i]) == k;
                assert(entry_key(s[i]) == k);
            }
            if seq_roles(s).contains_key(k) {
                let i = choose|i: int| 0 <= i < s.len() && entry_key(#[trigger] s[i]) == k;
                assert(entry_key(t[i]) == k);
            }
            if k == entry_key(e) {
                assert(entry_key(t[n]) == k);
            }
        }
        assert forall|k: (u64, u32)| a.contains_key(k) implies a[k] == b[k] by {
            let i = choose|i: int| 0 <= i < t.len() && entry_key(#[trigger] t[i]) == k;
            assert(entry_key(s[i]) == k);
            if k != entry_key(e) {
                assert(i != n);
                let j = choose|j: int| 0 <= j < s.len() && entry_key(#[trigger] s[j]) == k;
                assert(i == j);
            } else {
                assert(entry_key(t[n]) == k);
                assert(i == n);
            }
        }
        assert(a =~= b);
    }

    /// An empty registry.
    pub fn new() -> (r: GuildRoleManager)
        ensures
            r.wf(),
            r.roles() == Map::<(u64, u32), u64>::empty(),
    {
        let r = GuildRoleManager { entries: Vec::new() };
        assert(r.roles() =~= Map::<(u64, u32), u64>::empty());
        r
    }

    fn index_of(&self, guild_id: u64, tier: u32) -> (r: Option<usize>)
        requires
            self.wf(),
        ensures
            r is None <==> !self.roles().contains_key((guild_id, tier)),
            r matches Some(i) ==> i < self.entries@.len() && entry_key(self.entries@[i as int]) == (
            guild_id,
            tier,
            ),
    {
        let mut i: usize = 0;
        while i < self.entries.len()
            invariant
                self.wf(),
                i <= self.entries@.len(),
                forall|j: int| 0 <= j < i ==> entry_key(#[trigger] self.entries@[j]) != (guild_id, tier),
            decreases self.entries@.len() - i,
        {
            let e = self.entries[i];
            if e.guild_id == guild_id && e.tier == tier {
                return Some(i);
            }
            i = i + 1;
        }
        None
    }

    /// The role registered for `tier` in `guild_id`.
    pub fn role_for(&self, guild_id: u64, tier: u32) -> (r: Option<u64>)
        requires
            self.wf(),
        ensures
            r is None <==> !self.roles().contains_key((guild_id, tier)),
            r matches Some(x) ==> x == self.roles()[(guild_id, tier)],
    {
        match self.index_of(guild_id, tier) {
            Some(i) => {
                proof {
                    self.lemma_entry(i as int);
                }
                Some(self.entries[i].role_id)
            },
            None => None,
        }
    }

    /// Records that `role_id` gives `tier` in `guild_id`, replacing any role recorded
    /// for that tier before. Refused where the role already stands for another tier
    /// of the guild.
    pub fn register(&mut self, guild_id: u64, tier: u32, role_id: u64) -> (r: Result<(), RoleError>)
        requires
            old(self).wf(),
        ensures
            final(self).wf(),
            r is Err <==> exists|t: u32|
                t != tier && #[trigger] old(self).roles().contains_key((guild_id, t))
                    && old(self).roles()[(guild_id, t)] == role_id,
            r is Ok ==> final(self).roles() == old(self).roles().insert((guild_id, tier), role_id),
            r is Err ==> final(self).roles() == old(self).roles(),
    {
        let mut i: usize = 0;
        while i < self.entries.len()
            invariant
                self.wf(),
                i <= self.entries@.len(),
                forall|j: int|
                    0 <= j < i ==> !(#[trigger] self.entries@[j].guild_id == guild_id
                        && self.entries@[j].role_id == role_id && self.entries@[j].tier != tier),
            decreases self.entries@.len() - i,
        {
            let e = self.entries[i];
            if e.guild_id == guild_id && e.role_id == role_id && e.tier != tier {
                proof {
                    self.lemma_entry(i as int);
                    assert(self.roles().contains_key((guild_id, e.tier)));
                }
                return Err(RoleError::RoleInUse);
            }
            i = i + 1;
        }
        let ghost before = self.roles();
        proof {
            assert forall|t: u32|
                t != tier && #[trigger] before.contains_key((guild_id, t)) implies before[(guild_id, t)]
                != role_id by {
                let s = self.entries@;
                let j = choose|j: int| 0 <= j < s.len() && entry_key(#[trigger] s[j]) == (guild_id, t);
                self.lemma_entry(j);
            }
        }
        let e = TierRole { guild_id, tier, role_id };
        match self.index_of(guild_id, tier) {
            Some(n) => {
                proof {
                    GuildRoleManager::lemma_update(self.entries@, n as int, e);
                }
                self.entries.set(n, e);
            },
            None => {
                proof {
                    GuildRoleManager::lemma_push(self.entries@, e);
                }
                self.entries.push(e);
            },
        }
        proof {
            let m = self.roles();
            assert(m == before.insert((guild_id, tier), role_id));
            assert forall|a: (u64, u32), b: (u64, u32)|
                #![trigger m[a], m[b]]
                m.contains_key(a) && m.contains_key(b) && a.0 == b.0 && a != b implies m[a] != m[b] by {
                if a == (guild_id, tier) {
                    assert(before.contains_key(b));
                } else if b == (guild_id, tier) {
                    assert(before.contains_key(a));
                } else {
                    assert(before[a] == m[a] && before[b] == m[b]);
                }
            }
        }
        Ok(())
    }

    /// The role changes that bring an account holding `held` in `guild_id` in line
    /// with `rating`: the tier's role is granted unless held, every other tier role
    /// of the guild that is held is taken away, and other roles are left alone.
    /// Where the guild has no role for the tier yet, asks for one.
    pub fn sync_role(&self, guild_id: u64, held: &Vec<u64>, rating: u32) -> (p: SyncPlan)
        requires
            self.wf(),
        ensures
            plan_matches(p, self.roles(), guild_id, held@.to_set(), rating),
    {
        let t = tier(rating);
        let target = match self.role_for(guild_id, t) {
            None => {
                return SyncPlan::NeedRole { tier: t };
            },
            Some(x) => x,
        };
        let ghost m = self.roles();
        let mut has = false;
        let mut remove: Vec<u64> = Vec::new();
        let mut i: usize = 0;
        while i < held.len()
            invariant
                self.wf(),
                self.roles() == m,
                i <= held@.len(),
                has <==> exists|j: int| 0 <= j < i && held@[j] == target,
                forall|x: u64|
                    remove@.contains(x) <==> exists|j: int|
                        0 <= j < i && #[trigger] held@[j] == x && is_tier_role(m, guild_id, x) && x
                            != target,
            decreases held@.len() - i,
        {
            let x = held[i];
            let ghost r0 = remove@;
            if x == target {
                has = true;
            } else if self.is_tier_role(guild_id, x) {
                remove.push(x);
            }
            proof {
                let cond = is_tier_role(m, guild_id, x) && x != target;
                assert(cond ==> remove@ == r0.push(x));
                assert(!cond ==> remove@ == r0);
                assert forall|y: u64|
                    remove@.contains(y) <==> exists|j: int|
                        0 <= j < i + 1 && #[trigger] held@[j] == y && is_tier_role(m, guild_id, y)
                            && y != target by {
                    if remove@.contains(y) {
                        if r0.contains(y) {
                            let j = choose|j: int|
                                0 <= j < i && #[trigger] held@[j] == y && is_tier_role(m, guild_id, y)
                                    && y != target;
                            assert(0 <= j < i + 1);
                        } else {
                            let k = choose|k: int| 0 <= k < remove@.len() && remove@[k] == y;
                            assert(cond);
                            if k < r0.len() {
                                assert(r0[k] == y);
                                assert(r0.contains(y));
                            }
                            assert(y == x);
                            assert(held@[i as int] == y);
                        }
                    }
                    if exists|j: int|
                        0 <= j < i + 1 && #[trigger] held@[j] == y && is_tier_role(m, guild_id, y)
                            && y != target {
                        let j = choose|j: int|
                            0 <= j < i + 1 && #[trigger] held@[j] == y && is_tier_role(m, guild_id, y)
                                && y != target;
                        if j < i {
                            assert(r0.contains(y));
                            let k = choose|k: int| 0 <= k < r0.len() && r0[k] == y;
                            if cond {
                                assert(remove@[k] == y);
                            }
                        } else {
                            assert(y == x && cond);
                            assert(remove@[remove@.len() - 1] == y);
                        }
                    }
                }
            }
            i = i + 1;
        }
        proof {
            let hs = held@.to_set();
            assert(has == hs.contains(target));
            assert(remove@.to_set() =~= stale_roles(m, guild_id, hs, target));
        }
        let add = if has {
            None
        } else {
            Some(target)
        };
        SyncPlan::Apply { add, remove }
    }

    /// Whether `role_id` stands for some tier of `guild_id`.
    pub fn is_tier_role(&self, guild_id: u64, role_id: u64) -> (r: bool)
        requires
            self.wf(),
        ensures
            r == is_tier_role(self.roles(), guild_id, role_id),
    {
        let mut i: usize = 0;
        while i < self.entries.len()
            invariant
                self.wf(),
                i <= self.entries@.len(),
                forall|j: int|
                    0 <= j < i ==> !(#[trigger] self.entries@[j].guild_id == guild_id
                        && self.entries@[j].role_id == role_id),
            decreases self.entries@.len() - i,
        {
            let e = self.entries[i];
            if e.guild_id == guild_id && e.role_id == role_id {
                proof {
                    self.lemma_entry(i as int);
                    assert(self.roles().contains_key((guild_id, e.tier)));
                }
                return true;
            }
            i = i + 1;
        }
        proof {
            if is_tier_role(self.roles(), guild_id, role_id) {
                let t = choose|t: u32|
                    #[trigger] self.roles().contains_key((guild_id, t)) && self.roles()[(guild_id, t)]
                        == role_id;
                let s = self.entries@;
                let j = choose|j: int| 0 <= j < s.len() && entry_key(#[trigger] s[j]) == (guild_id, t);
                self.lemma_entry(j);
                assert(s[j].guild_id == guild_id && s[j].role_id == role_id);
            }
        }
        false
    }
}

/// The roles held once a plan's grant and removals are carried out.
pub open spec fn applied_roles(held: Set<u64>, add: Option<u64>, remove: Set<u64>) -> Set<u64> {
    match add {
        Some(a) => held.difference(remove).insert(a),
        None => held.difference(remove),
    }
}

/// Carrying out the plan that `sync_role` yields leaves exactly the roles of
/// `after_sync`.
pub proof fn lemma_plan_applies(
    p: SyncPlan,
    m: Map<(u64, u32), u64>,
    g: u64,
    held: Set<u64>,
    rating: u32,
)
    requires
        plan_matches(p, m, g, held, rating),
        m.contains_key((g, tier_of(rating))),
    ensures
        p matches SyncPlan::Apply { add, remove } && applied_roles(held, add, remove@.to_set())
            == after_sync(m, g, held, m[(g, tier_of(rating))]),
{
    let target = m[(g, tier_of(rating))];
    if let SyncPlan::Apply { add, remove } = p {
        assert(applied_roles(held, add, remove@.to_set()) =~= after_sync(m, g, held, target));
    }
}

/// Syncing twice in a row to the same rating changes nothing the second time: the
/// roles are the same after both calls, and the second plan grants and removes
/// nothing.
pub proof fn lemma_sync_idempotent(m: Map<(u64, u32), u64>, g: u64, held: Set<u64>, rating: u32)
    requires
        m.contains_key((g, tier_of(rating))),
    ensures
        ({
            let target = m[(g, tier_of(rating))];
            let once = after_sync(m, g, held, target);
            &&& after_sync(m, g, once, target) == once
            &&& granted_role(once, target) is None
            &&& stale_roles(m, g, once, target) == Set::<u64>::empty()
        }),
{
    let target = m[(g, tier_of(rating))];
    let once = after_sync(m, g, held, target);
    assert(after_sync(m, g, once, target) =~= once);
    assert(stale_roles(m, g, once, target) =~= Set::<u64>::empty());
}

/// Syncing at a rating of one tier and then at a rating of another leaves the
/// account with the second tier's role and without the first's.
pub proof fn lemma_tier_transition(
    m: Map<(u64, u32), u64>,
    g: u64,
    held: Set<u64>,
    r1: u32,
    r2: u32,
)
    requires
        roles_distinct(m),
        m.contains_key((g, tier_of(r1))),
        m.contains_key((g, tier_of(r2))),
        tier_of(r1) != tier_of(r2),
    ensures
        ({
            let t1 = m[(g, tier_of(r1))];
            let t2 = m[(g, tier_of(r2))];
            let end = after_sync(m, g, after_sync(m, g, held, t1), t2);
            end.contains(t2) && !end.contains(t1)
        }),
{
    let t1 = m[(g, tier_of(r1))];
    let t2 = m[(g, tier_of(r2))];
    assert(t1 != t2);
    assert(is_tier_role(m, g, t1));
}

} // verus!
