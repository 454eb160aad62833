//! Who may access what: label selectors that approve user groups, and the
//! permissions that role bindings give users.
#![allow(non_snake_case)]
use vstd::prelude::*;
use crate::strings::{str_eq, string_of};

verus! {

/// A group of users, with its labels (each key once).
pub struct UserGroup {
    pub name: String,
    pub labels: Vec<(String, String)>,
}

/// A user, known by its unix name.
pub struct User {
    pub unixname: String,
}

/// A binding of a role to a user: the user's name and the permissions the
/// role grants.
pub struct RoleBinding {
    pub user_name: String,
    pub permissions: Vec<String>,
}

/// A selector that approves groups by label: for each label key, the values
/// that are approved. When a key occurs more than once, its last occurrence
/// counts.
pub struct ApproveAccessSelector {
    pub matchLabels: Vec<(String, Vec<String>)>,
}

/// The access policies.
pub enum AccessPolicy {
    ApproveAccessSelector(ApproveAccessSelector),
}

pub open spec fn strs_view(s: Seq<String>) -> Seq<Seq<char>> {
    s.map_values(|x: String| x@)
}

/// Position `i` holds the last occurrence of key `k` in the selector.
pub open spec fn last_with_key(m: Seq<(String, Vec<String>)>, k: Seq<char>, i: int) -> bool {
    &&& 0 <= i < m.len()
    &&& m[i].0@ == k
    &&& forall|j: int| i < j < m.len() ==> (#[trigger] m[j]).0@ != k
}

/// The selector approves the label `(k, v)`: the last entry for `k` lists
/// `v`.
pub open spec fn label_approved(m: Seq<(String, Vec<String>)>, k: Seq<char>, v: Seq<char>) -> bool {
    exists|i: int| #[trigger] last_with_key(m, k, i) && strs_view(m[i].1@).contains(v)
}

/// The selector approves a group when it approves one of its labels.
pub open spec fn group_approved(m: Seq<(String, Vec<String>)>, labels: Seq<(String, String)>) -> bool {
    exists|j: int| 0 <= j < labels.len() && label_approved(m, labels[j].0@, #[trigger] labels[j].1@)
}

pub trait TApproveAccessSelector {
    fn checkGroupIsAllowed(&self, group: &UserGroup) -> bool;
}

pub fn contains_str(v: &Vec<String>, x: &String) -> (r: bool)
    ensures
        r == strs_view(v@).contains(x@),
{
    let mut i: usize = 0;
    while i < v.len()
        invariant
            i <= v@.len(),
            forall|j: int| 0 <= j < i ==> v@[j]@ != x@,
        decreases v@.len() - i,
    {
        if str_eq(v[i].as_str(), x.as_str()) {
            assert(strs_view(v@)[i as int] == x@);
            return true;
        }
        i = i + 1;
    }
    proof {
        if strs_view(v@).contains(x@) {
            let j = choose|j: int| 0 <= j < strs_view(v@).len() && strs_view(v@)[j] == x@;
            assert(v@[j]@ == x@);
        }
    }
    false
}

impl ApproveAccessSelector {
    /// Whether the label `(k, v)` is approved (see `label_approved`).
    fn approves_label(&self, k: &String, v: &String) -> (r: bool)
        ensures
            r == label_approved(self.matchLabels@, k@, v@),
    {
        let m = &self.matchLabels;
        let mut i: usize = m.len();
        while i > 0
            invariant
                i <= m@.len(),
                m@ == self.matchLabels@,
                forall|j: int| i <= j < m@.len() ==> (#[trigger] m@[j]).0@ != k@,
            decreases i,
        {
            let idx = i - 1;
            if str_eq(m[idx].0.as_str(), k.as_str()) {
                let found = contains_str(&m[idx].1, v);
                proof {
                    assert(last_with_key(m@, k@, idx as int));
                    if found {
                        assert(last_with_key(m@, k@, idx as int) && strs_view(m@[idx as int].1@).contains(v@));
                    }
                    if label_approved(m@, k@, v@) {
                        let w = choose|w: int| last_with_key(m@, k@, w) && strs_view(m@[w].1@).contains(v@);
                        if w < idx {
                            assert(m@[idx as int].0@ != k@);
                        } else if w > idx {
                            assert(m@[w].0@ != k@);
                        }
                    }
                }
                return found;
            }
            i = idx;
        }
        proof {
            if label_approved(m@, k@, v@) {
                let w = choose|w: int| last_with_key(m@, k@, w) && strs_view(m@[w].1@).contains(v@);
                assert(m@[w].0@ != k@);
            }
        }
        false
    }
}

impl TApproveAccessSelector for ApproveAccessSelector {
    /// Whether one of the group's labels is approved.
    fn checkGroupIsAllowed(&self, group: &UserGroup) -> (r: bool)
        ensures
            r == group_approved(self.matchLabels@, group.labels@),
    {
        let mut j: usize = 0;
        while j < group.labels.len()
            invariant
                j <= group.labels@.len(),
                forall|p: int| 0 <= p < j ==> !label_approved(self.matchLabels@, group.labels@[p].0@, #[trigger] group.labels@[p].1@),
            decreases group.labels@.len() - j,
        {
            if self.approves_label(&group.labels[j].0, &group.labels[j].1) {
                return true;
            }
            j = j + 1;
        }
        false
    }
}

/// The universe of users and role bindings.
pub struct Universe {
    pub name: String,
    pub users: Option<Vec<User>>,
    pub role_bindings: Option<Vec<RoleBinding>>,
}

pub open spec fn unixnames(users: Seq<User>) -> Seq<Seq<char>> {
    users.map_values(|u: User| u.unixname@)
}

/// The first binding whose user is unknown, if any.
pub open spec fn first_unknown_binding(users: Seq<User>, bindings: Seq<RoleBinding>, i: int) -> Option<int>
    decreases bindings.len() - i,
{
    if i < 0 || i >= bindings.len() {
        None
    } else if !unixnames(users).contains(bindings[i].user_name@) {
        Some(i)
    } else {
        first_unknown_binding(users, bindings, i + 1)
    }
}

/// The permissions that the bindings give the user `u`.
pub open spec fn permissions_of(bindings: Seq<RoleBinding>, u: Seq<char>) -> Set<Seq<char>> {
    Set::new(|p: Seq<char>| exists|i: int| 0 <= i < bindings.len() && bindings[i].user_name@ == u
        && strs_view(#[trigger] bindings[i].permissions@).contains(p))
}

/// The permissions that a sequence of bindings gives, gathered in order:
/// each binding adds its permissions to those of its user.
pub open spec fn gathered(bs: Seq<RoleBinding>) -> Map<Seq<char>, Set<Seq<char>>>
    decreases bs.len(),
{
    if bs.len() == 0 {
        Map::empty()
    } else {
        let m = gathered(bs.drop_last());
        let b = bs.last();
        let before = if m.contains_key(b.user_name@) {
            m[b.user_name@]
        } else {
            Set::empty()
        };
        if b.permissions@.len() == 0 {
            m
        } else {
            m.insert(b.user_name@, before.union(strs_view(b.permissions@).to_set()))
        }
    }
}

/// The permissions of each user, by value.
pub open spec fn permissions_view(m: Seq<(String, Vec<String>)>) -> Map<Seq<char>, Set<Seq<char>>> {
    Map::new(
        |u: Seq<char>| exists|i: int| 0 <= i < m.len() && m[i].0@ == u,
        |u: Seq<char>| strs_view(m[choose|i: int| 0 <= i < m.len() && m[i].0@ == u].1@).to_set(),
    )
}

/// Gathering gives each user that some binding with permissions names
/// exactly the permissions of the bindings that name it.
pub proof fn lemma_gathered(bs: Seq<RoleBinding>)
    ensures
        gathered(bs) == Map::new(
            |u: Seq<char>| exists|i: int| 0 <= i < bs.len() && bs[i].user_name@ == u && bs[i].permissions@.len() > 0,
            |u: Seq<char>| permissions_of(bs, u),
        ),
    decreases bs.len(),
{
    let target = Map::new(
        |u: Seq<char>| exists|i: int| 0 <= i < bs.len() && bs[i].user_name@ == u && bs[i].permissions@.len() > 0,
        |u: Seq<char>| permissions_of(bs, u),
    );
    if bs.len() == 0 {
        assert(gathered(bs) =~= target);
    } else {
        let p = bs.drop_last();
        lemma_gathered(p);
        let b = bs.last();
        let g = gathered(bs);
        assert forall|u: Seq<char>| #[trigger] g.contains_key(u) <==> target.contains_key(u) by {
            if exists|i: int| 0 <= i < p.len() && p[i].user_name@ == u && p[i].permissions@.len() > 0 {
                let i = choose|i: int| 0 <= i < p.len() && p[i].user_name@ == u && p[i].permissions@.len() > 0;
                assert(bs[i] == p[i]);
            }
            if exists|i: int| 0 <= i < bs.len() && bs[i].user_name@ == u && bs[i].permissions@.len() > 0 {
                let i = choose|i: int| 0 <= i < bs.len() && bs[i].user_name@ == u && bs[i].permissions@.len() > 0;
                if i < p.len() {
                    assert(p[i] == bs[i]);
                }
            }
        }
        assert forall|u: Seq<char>| #[trigger] g.contains_key(u) implies g[u] == target[u] by {
            assert forall|x: Seq<char>| g[u].contains(x) <==> permissions_of(bs, u).contains(x) by {
                if permissions_of(bs, u).contains(x) {
                    let i = choose|i: int| 0 <= i < bs.len() && bs[i].user_name@ == u && strs_view(#[trigger] bs[i].permissions@).contains(x);
                    if i < p.len() {
                        assert(p[i] == bs[i]);
                        assert(permissions_of(p, u).contains(x));
                    }
                }
                if permissions_of(p, u).contains(x) {
                    let i = choose|i: int| 0 <= i < p.len() && p[i].user_name@ == u && strs_view(#[trigger] p[i].permissions@).contains(x);
                    assert(bs[i] == p[i]);
                }
                if u == b.user_name@ && strs_view(b.permissions@).contains(x) {
                    assert(bs[bs.len() - 1] == b);
                }
            }
            assert(g[u] =~= target[u]);
        }
        assert(g =~= target);
    }
}

pub trait TUniverse {
    /// Whether the universe holds its users.
    spec fn has_users(&self) -> bool;

    /// Whether the universe holds what the permissions are computed from.
    spec fn has_users_and_bindings(&self) -> bool;

    fn get_user_unixname_map(&self) -> Vec<(String, User)>
        requires
            self.has_users(),
    ;

    fn get_user_permissions(&self) -> Result<Vec<(String, Vec<String>)>, String>
        requires
            self.has_users_and_bindings(),
    ;
}

/// Whether no name occurs twice among the keys.
pub open spec fn keys_once(m: Seq<(String, Vec<String>)>) -> bool {
    forall|i: int, j: int| 0 <= i < m.len() && 0 <= j < m.len() && i != j ==> m[i].0@ != m[j].0@
}

fn find_key(m: &Vec<(String, Vec<String>)>, k: &String) -> (r: Option<usize>)
    ensures
        match r {
            Some(i) => i < m@.len() && m@[i as int].0@ == k@,
            None => forall|i: int| 0 <= i < m@.len() ==> m@[i].0@ != k@,
        },
{
    let mut i: usize = 0;
    while i < m.len()
        invariant
            i <= m@.len(),
            forall|j: int| 0 <= j < i ==> m@[j].0@ != k@,
        decreases m@.len() - i,
    {
        if str_eq(m[i].0.as_str(), k.as_str()) {
            return Some(i);
        }
        i = i + 1;
    }
    None
}

/// Adds the permission `p` to the set of `s` (if it is not there yet).
fn add_permission(s: &mut Vec<String>, p: &String)
    ensures
        strs_view(final(s)@).to_set() == strs_view(old(s)@).to_set().insert(p@),
{
    if !contains_str(s, p) {
        let ghost s0 = strs_view(s@);
        s.push(p.clone());
        proof {
            assert(strs_view(s@) =~= s0.push(p@));
            assert(strs_view(s@).to_set() =~= s0.to_set().insert(p@)) by {
                assert forall|x: Seq<char>| strs_view(s@).contains(x) <==> s0.contains(x) || x == p@ by {
                    if strs_view(s@).contains(x) {
                        let k = choose|k: int| 0 <= k < strs_view(s@).len() && strs_view(s@)[k] == x;
                        if k < s0.len() {
                            assert(s0[k] == x);
                        }
                    }
                    if s0.contains(x) {
                        let k = choose|k: int| 0 <= k < s0.len() && s0[k] == x;
                        assert(strs_view(s@)[k] == x);
                    }
                    assert(strs_view(s@)[s0.len() as int] == p@);
                }
            }
        }
    } else {
        assert(strs_view(s@).to_set() =~= strs_view(s@).to_set().insert(p@));
    }
}

/// Adds the permissions of a binding to those of its user.
fn add_binding(m: &mut Vec<(String, Vec<String>)>, b: &RoleBinding)
    requires
        keys_once(old(m)@),
    ensures
        keys_once(final(m)@),
        permissions_view(final(m)@) == permissions_view(old(m)@).insert(
            b.user_name@,
            (if permissions_view(old(m)@).contains_key(b.user_name@) {
                permissions_view(old(m)@)[b.user_name@]
            } else {
                Set::empty()
            }).union(strs_view(b.permissions@).to_set()),
        ),
{
    let ghost m0 = m@;
    let ghost u = b.user_name@;
    let pos = find_key(m, &b.user_name);
    let idx: usize = match pos {
        Some(p) => p,
        None => {
            m.push((b.user_name.clone(), Vec::new()));
            m.len() - 1
        },
    };
    let ghost m1 = m@;
    let ghost before = if permissions_view(m0).contains_key(u) {
        permissions_view(m0)[u]
    } else {
        Set::empty()
    };
    proof {
        assert(m1[idx as int].0@ == u);
        assert(forall|k: int| 0 <= k < m0.len() ==> m1[k] == m0[k]);
        if pos is None {
            assert(strs_view(m1[idx as int].1@).to_set() =~= Set::<Seq<char>>::empty());
            assert(!permissions_view(m0).contains_key(u));
        } else {
            assert(permissions_view(m0).contains_key(u));
            let c = choose|c: int| 0 <= c < m0.len() && m0[c].0@ == u;
            assert(c == idx);
        }
        assert(strs_view(m1[idx as int].1@).to_set() == before);
        assert(keys_once(m1)) by {
            assert forall|x: int, y: int| 0 <= x < m1.len() && 0 <= y < m1.len() && x != y implies m1[x].0@ != m1[y].0@ by {
                if x < m0.len() && y < m0.len() {
                    assert(m1[x] == m0[x] && m1[y] == m0[y]);
                } else if x >= m0.len() {
                    assert(m1[y] == m0[y]);
                } else {
                    assert(m1[x] == m0[x]);
                }
            }
        }
    }
    let (name, mut perms) = m.remove(idx);
    let mut q: usize = 0;
    while q < b.permissions.len()
        invariant
            q <= b.permissions@.len(),
            strs_view(perms@).to_set() == before.union(strs_view(b.permissions@.take(q as int)).to_set()),
        decreases b.permissions@.len() - q,
    {
        add_permission(&mut perms, &b.permissions[q]);
        q = q + 1;
        proof {
            let a = strs_view(b.permissions@.take(q as int));
            let c = strs_view(b.permissions@.take(q - 1));
            assert(a =~= c.push(b.permissions@[q - 1]@));
            assert forall|x: Seq<char>| a.contains(x) <==> c.contains(x) || x == b.permissions@[q - 1]@ by {
                if a.contains(x) {
                    let k = choose|k: int| 0 <= k < a.len() && a[k] == x;
                    if k < c.len() {
                        assert(c[k] == x);
                    }
                }
                if c.contains(x) {
                    let k = choose|k: int| 0 <= k < c.len() && c[k] == x;
                    assert(a[k] == x);
                }
                assert(a[c.len() as int] == b.permissions@[q - 1]@);
            }
            assert(a.to_set() =~= c.to_set().insert(b.permissions@[q - 1]@));
            assert(strs_view(perms@).to_set() =~= before.union(a.to_set()));
        }
    }
    proof {
        assert(b.permissions@.take(q as int) =~= b.permissions@);
    }
    m.insert(idx, (name, perms));
    proof {
        let mi = m@;
        assert forall|k: int| 0 <= k < mi.len() && k != idx implies #[trigger] mi[k] == m1[k] by {}
        assert(mi[idx as int].0@ == u);
        assert(keys_once(mi)) by {
            assert forall|x: int, y: int| 0 <= x < mi.len() && 0 <= y < mi.len() && x != y implies mi[x].0@ != mi[y].0@ by {
                assert(mi[x].0@ == m1[x].0@ && mi[y].0@ == m1[y].0@);
            }
        }
        let target = permissions_view(m0).insert(u, before.union(strs_view(b.permissions@).to_set()));
        let pv = permissions_view(mi);
        assert forall|w: Seq<char>| #[trigger] pv.contains_key(w) <==> target.contains_key(w) by {
            if pv.contains_key(w) {
                let k = choose|k: int| 0 <= k < mi.len() && mi[k].0@ == w;
                if k != idx && k < m0.len() {
                    assert(m0[k] == m1[k]);
                }
            }
            if permissions_view(m0).contains_key(w) {
                let k = choose|k: int| 0 <= k < m0.len() && m0[k].0@ == w;
                assert(mi[k].0@ == m1[k].0@);
            }
        }
        assert forall|w: Seq<char>| #[trigger] pv.contains_key(w) implies pv[w] == target[w] by {
            let k = choose|k: int| 0 <= k < mi.len() && mi[k].0@ == w;
            if k == idx {
                assert(w == u);
            } else {
                assert(mi[k] == m1[k]);
                assert(k < m0.len());
                assert(m1[k] == m0[k]);
                let c = choose|c: int| 0 <= c < m0.len() && m0[c].0@ == w;
                assert(c == k);
            }
        }
        assert(pv =~= target);
    }
}

impl TUniverse for Universe {
    open spec fn has_users(&self) -> bool {
        self.users is Some
    }

    open spec fn has_users_and_bindings(&self) -> bool {
        self.users is Some && self.role_bindings is Some
    }

    /// The users by unix name: each name once, with a user of that name,
    /// the names in the order in which they first occur. The users must be
    /// present (their absence is a fatal error, excluded here).
    fn get_user_unixname_map(&self) -> (r: Vec<(String, User)>)
        ensures
            forall|i: int, j: int| 0 <= i < r@.len() && 0 <= j < r@.len() && i != j ==> r@[i].0@ != r@[j].0@,
            forall|i: int| 0 <= i < r@.len() ==> (#[trigger] r@[i]).1.unixname@ == r@[i].0@,
            forall|x: Seq<char>| (exists|i: int| 0 <= i < r@.len() && #[trigger] r@[i].0@ == x)
                <==> unixnames(self.users->0@).contains(x),
    {
        let users = match &self.users {
            Some(u) => u,
            None => { return Vec::new(); },
        };
        let mut r: Vec<(String, User)> = Vec::new();
        let mut i: usize = 0;
        while i < users.len()
            invariant
                i <= users@.len(),
                self.users == Some(*users),
                forall|a: int, b: int| 0 <= a < r@.len() && 0 <= b < r@.len() && a != b ==> r@[a].0@ != r@[b].0@,
                forall|a: int| 0 <= a < r@.len() ==> (#[trigger] r@[a]).1.unixname@ == r@[a].0@,
                forall|x: Seq<char>| (exists|a: int| 0 <= a < r@.len() && #[trigger] r@[a].0@ == x)
                    <==> unixnames(users@.take(i as int)).contains(x),
            decreases users@.len() - i,
        {
            let name = &users[i].unixname;
            let mut found = false;
            let mut j: usize = 0;
            while j < r.len()
                invariant
                    j <= r@.len(),
                    found == exists|a: int| 0 <= a < j && r@[a].0@ == name@,
                decreases r@.len() - j,
            {
                if str_eq(r[j].0.as_str(), name.as_str()) {
                    found = true;
                }
                j = j + 1;
            }
            let ghost r0 = r@;
            let ghost u0 = unixnames(users@.take(i as int));
            proof {
                assert(forall|x: Seq<char>| (exists|a: int| 0 <= a < r0.len() && #[trigger] r0[a].0@ == x) <==> u0.contains(x));
            }
            if !found {
                r.push((name.clone(), User { unixname: name.clone() }));
            }
            i = i + 1;
            proof {
                let u1 = unixnames(users@.take(i as int));
                assert(u1 =~= u0.push(name@));
                assert forall|x: Seq<char>| (exists|a: int| 0 <= a < r@.len() && #[trigger] r@[a].0@ == x) <==> u1.contains(x) by {
                    if exists|a: int| 0 <= a < r@.len() && #[trigger] r@[a].0@ == x {
                        let a = choose|a: int| 0 <= a < r@.len() && #[trigger] r@[a].0@ == x;
                        if a < r0.len() {
                            assert(r0[a].0@ == x);
                            assert(u0.contains(x));
                            let k = choose|k: int| 0 <= k < u0.len() && u0[k] == x;
                            assert(u1[k] == x);
                        } else {
                            assert(u1[u0.len() as int] == x);
                        }
                    }
                    if u1.contains(x) {
                        let k = choose|k: int| 0 <= k < u1.len() && u1[k] == x;
                        if k < u0.len() {
                            assert(u0[k] == x);
                            assert(u0.contains(x));
                            let a = choose|a: int| 0 <= a < r0.len() && #[trigger] r0[a].0@ == x;
                            assert(r@[a] == r0[a]);
                        } else if found {
                            let a = choose|a: int| 0 <= a < r0.len() && r0[a].0@ == name@;
                            assert(r@[a].0@ == x);
                        } else {
                            assert(r@[r0.len() as int].0@ == x);
                        }
                    }
                }
            }
        }
        proof {
            assert(users@.take(i as int) =~= users@);
        }
        r
    }

    /// The permissions of each user, gathered over the role bindings in
    /// order; an error naming the user of the first binding whose user is
    /// unknown. Users and role bindings must both be present (their absence
    /// is a fatal error, excluded here).
    fn get_user_permissions(&self) -> (r: Result<Vec<(String, Vec<String>)>, String>)
        ensures
            match first_unknown_binding(self.users->0@, self.role_bindings->0@, 0) {
                Some(i) => r matches Err(e) && e@ == "Cannot find user with name "@ + self.role_bindings->0@[i].user_name@ + "."@,
                None => r matches Ok(m) && keys_once(m@) && permissions_view(m@) == Map::new(
                    |u: Seq<char>| exists|i: int| 0 <= i < self.role_bindings->0@.len() && self.role_bindings->0@[i].user_name@ == u
                        && self.role_bindings->0@[i].permissions@.len() > 0,
                    |u: Seq<char>| permissions_of(self.role_bindings->0@, u),
                ),
            },
    {
        let users = match &self.users {
            Some(u) => u,
            None => { return Err(String::new()); },
        };
        let bindings = match &self.role_bindings {
            Some(b) => b,
            None => { return Err(String::new()); },
        };
        let mut m: Vec<(String, Vec<String>)> = Vec::new();
        let mut i: usize = 0;
        proof {
            assert(permissions_view(m@) =~= gathered(bindings@.take(0)));
        }
        while i < bindings.len()
            invariant
                i <= bindings@.len(),
                self.users == Some(*users),
                self.role_bindings == Some(*bindings),
                first_unknown_binding(users@, bindings@, 0) == first_unknown_binding(users@, bindings@, i as int),
                keys_once(m@),
                permissions_view(m@) == gathered(bindings@.take(i as int)),
            decreases bindings@.len() - i,
        {
            let b = &bindings[i];
            let mut known = false;
            let mut j: usize = 0;
            while j < users.len()
                invariant
                    j <= users@.len(),
                    known == exists|p: int| 0 <= p < j && users@[p].unixname@ == b.user_name@,
                decreases users@.len() - j,
            {
                if str_eq(users[j].unixname.as_str(), b.user_name.as_str()) {
                    known = true;
                }
                j = j + 1;
            }
            proof {
                if known {
                    let p = choose|p: int| 0 <= p < users@.len() && users@[p].unixname@ == b.user_name@;
                    assert(unixnames(users@)[p] == b.user_name@);
                } else if unixnames(users@).contains(b.user_name@) {
                    let p = choose|p: int| 0 <= p < unixnames(users@).len() && unixnames(users@)[p] == b.user_name@;
                    assert(users@[p].unixname@ == b.user_name@);
                }
            }
            if !known {
                proof {
                    reveal_strlit("Cannot find user with name ");
                    reveal_strlit(".");
                }
                let mut e = string_of("Cannot find user with name ");
                e.append(b.user_name.as_str());
                e.append(".");
                return Err(e);
            }
            if b.permissions.len() > 0 {
                add_binding(&mut m, b);
            }
            i = i + 1;
            proof {
                let t = bindings@.take(i as int);
                assert(t.drop_last() =~= bindings@.take(i - 1));
                assert(t.last() == *b);
            }
        }
        proof {
            assert(bindings@.take(i as int) =~= bindings@);
            lemma_gathered(bindings@);
        }
        Ok(m)
    }
}

} // verus!
