use vstd::prelude::*;

verus! {

/// The users of one room, in the order in which they joined.
pub type Members = Seq<Seq<char>>;

/// The abstract registry: each document that has a room maps to its member list.
pub type RoomMap = Map<Seq<char>, Members>;

/// Whether two strings hold the same characters.
pub fn text_eq(a: &String, b: &String) -> (r: bool)
    ensures
        r == (a@ == b@),
{
    a.eq(b)
}

/// The member list of `doc`; a document without a room has no members.
pub open spec fn room_of(m: RoomMap, doc: Seq<char>) -> Members {
    if m.dom().contains(doc) {
        m[doc]
    } else {
        Seq::empty()
    }
}

/// `s` with every occurrence of `u` taken out, the rest in order.
pub open spec fn remove_all(s: Members, u: Seq<char>) -> Members
    decreases s.len(),
{
    if s.len() == 0 {
        s
    } else if s.last() == u {
        remove_all(s.drop_last(), u)
    } else {
        remove_all(s.drop_last(), u).push(s.last())
    }
}

/// `s` with its first occurrence of `u` taken out; `s` itself when `u` does not occur.
pub open spec fn remove_first(s: Members, u: Seq<char>) -> Members
    decreases s.len(),
{
    if s.len() == 0 {
        s
    } else if s[0] == u {
        s.drop_first()
    } else {
        seq![s[0]] + remove_first(s.drop_first(), u)
    }
}

/// The registry after `user` joins `doc`: appended at the end, the room created if absent.
pub open spec fn join_spec(m: RoomMap, doc: Seq<char>, user: Seq<char>) -> RoomMap {
    m.insert(doc, room_of(m, doc).push(user))
}

/// The registry after `user` leaves `doc`: every entry of `user` in that room is gone.
pub open spec fn leave_spec(m: RoomMap, doc: Seq<char>, user: Seq<char>) -> RoomMap {
    if m.dom().contains(doc) {
        m.insert(doc, remove_all(m[doc], user))
    } else {
        m
    }
}

/// The registry after a session joined as `user` in `doc` closes: one entry is gone.
pub open spec fn disconnect_spec(m: RoomMap, doc: Seq<char>, user: Seq<char>) -> RoomMap {
    if m.dom().contains(doc) {
        m.insert(doc, remove_first(m[doc], user))
    } else {
        m
    }
}

proof fn lemma_remove_all_excludes(s: Members, u: Seq<char>)
    ensures
        !remove_all(s, u).contains(u),
    decreases s.len(),
{
    if s.len() > 0 {
        lemma_remove_all_excludes(s.drop_last(), u);
        let r = remove_all(s.drop_last(), u);
        if s.last() != u {
            assert forall|j: int| 0 <= j < r.push(s.last()).len() implies r.push(s.last())[j] != u by {
                if j < r.len() {
                    assert(r.push(s.last())[j] == r[j]);
                }
            }
        }
    }
}

proof fn lemma_remove_all_absent(s: Members, u: Seq<char>)
    requires
        !s.contains(u),
    ensures
        remove_all(s, u) == s,
    decreases s.len(),
{
    if s.len() > 0 {
        assert(s.last() == s[s.len() - 1]);
        assert(!s.drop_last().contains(u)) by {
            if s.drop_last().contains(u) {
                let j = choose|j: int| 0 <= j < s.drop_last().len() && s.drop_last()[j] == u;
                assert(s[j] == u);
            }
        }
        lemma_remove_all_absent(s.drop_last(), u);
        assert(s.drop_last().push(s.last()) =~= s);
    }
}

/// Where `u` occurs in `s`, `remove_first` takes out one entry equal to `u`, at some index.
proof fn lemma_remove_first_is_remove(s: Members, u: Seq<char>) -> (k: int)
    requires
        s.contains(u),
    ensures
        0 <= k < s.len(),
        s[k] == u,
        remove_first(s, u) == s.remove(k),
    decreases s.len(),
{
    if s[0] == u {
        assert(s.remove(0) =~= s.drop_first());
        0
    } else {
        let j = choose|j: int| 0 <= j < s.len() && s[j] == u;
        assert(s.drop_first()[j - 1] == u);
        let k1 = lemma_remove_first_is_remove(s.drop_first(), u);
        assert(s.remove(k1 + 1) =~= seq![s[0]] + s.drop_first().remove(k1));
        k1 + 1
    }
}

/// A user who joins a document and then leaves it is no longer among its members, and
/// no other room changes.
pub proof fn lemma_join_then_leave(m: RoomMap, doc: Seq<char>, user: Seq<char>)
    ensures
        !room_of(leave_spec(join_spec(m, doc, user), doc, user), doc).contains(user),
        forall|d: Seq<char>|
            d != doc ==> room_of(leave_spec(join_spec(m, doc, user), doc, user), d) == room_of(m, d),
{
    let j = join_spec(m, doc, user);
    lemma_remove_all_excludes(j[doc], user);
}

/// Leaving a room that the user is not in changes nothing and is no error.
pub proof fn lemma_leave_without_join(m: RoomMap, doc: Seq<char>, user: Seq<char>)
    requires
        !room_of(m, doc).contains(user),
    ensures
        leave_spec(m, doc, user) == m,
{
    if m.dom().contains(doc) {
        lemma_remove_all_absent(m[doc], user);
        assert(m.insert(doc, m[doc]) =~= m);
    }
}

/// Closing a session joined as `user` in `doc` takes exactly one of that user's entries
/// out of the room: the room shrinks by one and its other entries stay.
pub proof fn lemma_disconnect_removes_one(m: RoomMap, doc: Seq<char>, user: Seq<char>)
    requires
        room_of(m, doc).contains(user),
    ensures
        room_of(disconnect_spec(m, doc, user), doc).len() == room_of(m, doc).len() - 1,
        room_of(disconnect_spec(m, doc, user), doc).to_multiset() == room_of(m, doc).to_multiset().remove(
            user,
        ),
        forall|d: Seq<char>| d != doc ==> room_of(disconnect_spec(m, doc, user), d) == room_of(m, d),
{
    let k = lemma_remove_first_is_remove(m[doc], user);
    vstd::seq_lib::to_multiset_remove(m[doc], k);
}

/// Each join of the same user adds one entry to the room, and each close of such a session
/// takes one back out: two joins then one close leave one more entry than before.
pub proof fn lemma_join_twice_disconnect_once(m: RoomMap, doc: Seq<char>, user: Seq<char>)
    ensures
        room_of(join_spec(join_spec(m, doc, user), doc, user), doc).to_multiset().count(user)
            == room_of(m, doc).to_multiset().count(user) + 2,
        room_of(disconnect_spec(join_spec(join_spec(m, doc, user), doc, user), doc, user), doc).to_multiset().count(
            user,
        ) == room_of(m, doc).to_multiset().count(user) + 1,
{
    broadcast use vstd::seq_lib::to_multiset_build;
    broadcast use vstd::multiset::group_multiset_axioms;

    let r0 = room_of(m, doc);
    let m2 = join_spec(join_spec(m, doc, user), doc, user);
    assert(room_of(m2, doc) == r0.push(user).push(user));
    assert(room_of(m2, doc)[r0.len() as int] == user);
    lemma_disconnect_removes_one(m2, doc, user);
}

/// The joined users of one document.
pub struct Room {
    doc_id: String,
    members: Vec<String>,
}

/// The shared membership registry: from a document to the users joined to it.
pub struct RoomRegistry {
    rooms: Vec<Room>,
    model: Ghost<RoomMap>,
}

impl View for RoomRegistry {
    type V = RoomMap;

    closed spec fn view(&self) -> RoomMap {
        self.model@
    }
}

/// `v` with every entry equal to `u` dropped.
fn without_all(v: &Vec<String>, u: &String) -> (r: Vec<String>)
    ensures
        r.deep_view() == remove_all(v.deep_view(), u@),
{
    let mut out: Vec<String> = Vec::new();
    let mut i: usize = 0;
    while i < v.len()
        invariant
            i <= v@.len(),
            out.deep_view() == remove_all(v.deep_view().subrange(0, i as int), u@),
        decreases v@.len() - i,
    {
        let ghost before = out.deep_view();
        proof {
            assert(v.deep_view().subrange(0, i + 1).drop_last() =~= v.deep_view().subrange(0, i as int));
        }
        if !text_eq(&v[i], u) {
            out.push(v[i].clone());
            assert(out.deep_view() =~= before.push(v@[i as int]@));
        }
        i = i + 1;
    }
    assert(v.deep_view().subrange(0, v@.len() as int) =~= v.deep_view());
    out
}

proof fn lemma_remove_first_at(s: Members, u: Seq<char>, k: int)
    requires
        0 <= k < s.len(),
        s[k] == u,
        forall|j: int| 0 <= j < k ==> s[j] != u,
    ensures
        remove_first(s, u) == s.remove(k),
    decreases s.len(),
{
    if k == 0 {
        assert(s.remove(0) =~= s.drop_first());
    } else {
        lemma_remove_first_at(s.drop_first(), u, k - 1);
        assert(s.remove(k) =~= seq![s[0]] + s.drop_first().remove(k - 1));
    }
}

proof fn lemma_remove_first_absent(s: Members, u: Seq<char>)
    requires
        forall|j: int| 0 <= j < s.len() ==> s[j] != u,
    ensures
        remove_first(s, u) == s,
    decreases s.len(),
{
    if s.len() > 0 {
        lemma_remove_first_absent(s.drop_first(), u);
        assert(seq![s[0]] + s.drop_first() =~= s);
    }
}

/// `v` with its first entry equal to `u` dropped, if there is one.
fn without_first(v: &mut Vec<String>, u: &String)
    ensures
        final(v).deep_view() == remove_first(old(v).deep_view(), u@),
{
    let mut i: usize = 0;
    while i < v.len()
        invariant
            i <= v@.len(),
            v@ == old(v)@,
            forall|j: int| 0 <= j < i ==> v.deep_view()[j] != u@,
        decreases v@.len() - i,
    {
        if text_eq(&v[i], u) {
            let ghost before = v.deep_view();
            proof {
                lemma_remove_first_at(before, u@, i as int);
            }
            v.remove(i);
            assert(v.deep_view() =~= before.remove(i as int));
            return;
        }
        i = i + 1;
    }
    proof {
        assert(v.deep_view() == old(v).deep_view());
        lemma_remove_first_absent(v.deep_view(), u@);
    }
}

impl RoomRegistry {
    /// The rooms have distinct documents, and the model holds exactly them.
    pub closed spec fn wf(&self) -> bool {
        &&& forall|i: int, j: int|
            0 <= i < j < self.rooms@.len() ==> self.rooms@[i].doc_id@ != self.rooms@[j].doc_id@
        &&& forall|i: int|
            0 <= i < self.rooms@.len() ==> self.model@.dom().contains(#[trigger] self.rooms@[i].doc_id@)
                && self.model@[self.rooms@[i].doc_id@] == self.rooms@[i].members.deep_view()
        &&& forall|d: Seq<char>|
            #[trigger] self.model@.dom().contains(d) ==> exists|i: int|
                0 <= i < self.rooms@.len() && self.rooms@[i].doc_id@ == d
    }

    /// An empty registry.
    pub fn new() -> (r: Self)
        ensures
            r.wf(),
            r@ == RoomMap::empty(),
    {
        RoomRegistry { rooms: Vec::new(), model: Ghost(Map::empty()) }
    }

    /// The index of the room of `doc`, if it has one.
    fn find(&self, doc: &String) -> (r: Option<usize>)
        requires
            self.wf(),
        ensures
            match r {
                Some(i) => i < self.rooms@.len() && self.rooms@[i as int].doc_id@ == doc@,
                None => !self@.dom().contains(doc@),
            },
    {
        let mut i: usize = 0;
        while i < self.rooms.len()
            invariant
                self.wf(),
                i <= self.rooms@.len(),
                forall|j: int| 0 <= j < i ==> self.rooms@[j].doc_id@ != doc@,
            decreases self.rooms@.len() - i,
        {
            if text_eq(&self.rooms[i].doc_id, doc) {
                return Some(i);
            }
            i = i + 1;
        }
        None
    }

    /// The current member list of `doc`, in order of joining.
    pub fn members(&self, doc: &String) -> (r: Vec<String>)
        requires
            self.wf(),
        ensures
            r.deep_view() == room_of(self@, doc@),
    {
        match self.find(doc) {
            Some(i) => self.rooms[i].members.clone(),
            None => Vec::new(),
        }
    }

    /// Adds `user` at the end of the room of `doc`, creating the room if absent.
    pub fn join(&mut self, doc: &String, user: &String)
        requires
            old(self).wf(),
        ensures
            final(self).wf(),
            final(self)@ == join_spec(old(self)@, doc@, user@),
    {
        let ghost m = self.model@;
        let ghost old_rooms = self.rooms@;
        match self.find(doc) {
            Some(i) => {
                let ghost old_members = self.rooms@[i as int].members.deep_view();
                self.rooms[i].members.push(user.clone());
                self.model = Ghost(join_spec(m, doc@, user@));
                proof {
                    assert(self.rooms@[i as int].members.deep_view() =~= old_members.push(user@));
                    assert forall|j: int| 0 <= j < self.rooms@.len() && j != i implies self.rooms@[j]
                        == old_rooms[j] by {}
                    assert forall|d: Seq<char>| #[trigger] self.model@.dom().contains(d) implies exists|
                        k: int,
                    | 0 <= k < self.rooms@.len() && self.rooms@[k].doc_id@ == d by {
                        if d != doc@ {
                            assert(m.dom().contains(d));
                            let k = choose|k: int|
                                0 <= k < old_rooms.len() && old_rooms[k].doc_id@ == d;
                            assert(self.rooms@[k].doc_id@ == d);
                        } else {
                            assert(self.rooms@[i as int].doc_id@ == d);
                        }
                    }
                }
            },
            None => {
                let mut members: Vec<String> = Vec::new();
                members.push(user.clone());
                self.rooms.push(Room { doc_id: doc.clone(), members });
                self.model = Ghost(join_spec(m, doc@, user@));
                proof {
                    let n = old_rooms.len() as int;
                    assert(self.rooms@[n].members.deep_view() =~= seq![user@]);
                    assert(room_of(m, doc@).push(user@) =~= seq![user@]);
                    assert forall|j: int| 0 <= j < n implies self.rooms@[j] == old_rooms[j] by {}
                    assert forall|j: int| 0 <= j < n implies old_rooms[j].doc_id@ != doc@ by {
                        assert(m.dom().contains(old_rooms[j].doc_id@));
                    }
                    assert forall|d: Seq<char>| #[trigger] self.model@.dom().contains(d) implies exists|
                        k: int,
                    | 0 <= k < self.rooms@.len() && self.rooms@[k].doc_id@ == d by {
                        if d != doc@ {
                            assert(m.dom().contains(d));
                            let k = choose|k: int|
                                0 <= k < old_rooms.len() && old_rooms[k].doc_id@ == d;
                            assert(self.rooms@[k].doc_id@ == d);
                        } else {
                            assert(self.rooms@[n].doc_id@ == d);
                        }
                    }
                }
            },
        }
    }

    /// Takes every entry of `user` out of the room of `doc`; nothing happens when the room is absent.
    pub fn leave(&mut self, doc: &String, user: &String)
        requires
            old(self).wf(),
        ensures
            final(self).wf(),
            final(self)@ == leave_spec(old(self)@, doc@, user@),
    {
        let ghost m = self.model@;
        let ghost old_rooms = self.rooms@;
        if let Some(i) = self.find(doc) {
            let rest = without_all(&self.rooms[i].members, user);
            self.rooms[i].members = rest;
            self.model = Ghost(leave_spec(m, doc@, user@));
            proof {
                assert(m.dom().contains(doc@));
                assert forall|j: int| 0 <= j < self.rooms@.len() && j != i implies self.rooms@[j]
                    == old_rooms[j] by {}
                assert forall|d: Seq<char>| #[trigger] self.model@.dom().contains(d) implies exists|
                    k: int,
                | 0 <= k < self.rooms@.len() && self.rooms@[k].doc_id@ == d by {
                    let k = choose|k: int| 0 <= k < old_rooms.len() && old_rooms[k].doc_id@ == d;
                    assert(self.rooms@[k].doc_id@ == d);
                }
            }
        }
    }

    /// Takes the first entry of `user` out of the room of `doc`, as a closing session does.
    pub fn disconnect(&mut self, doc: &String, user: &String)
        requires
            old(self).wf(),
        ensures
            final(self).wf(),
            final(self)@ == disconnect_spec(old(self)@, doc@, user@),
    {
        let ghost m = self.model@;
        let ghost old_rooms = self.rooms@;
        if let Some(i) = self.find(doc) {
            without_first(&mut self.rooms[i].members, user);
            self.model = Ghost(disconnect_spec(m, doc@, user@));
            proof {
                assert(m.dom().contains(doc@));
                assert forall|j: int| 0 <= j < self.rooms@.len() && j != i implies self.rooms@[j]
                    == old_rooms[j] by {}
                assert forall|d: Seq<char>| #[trigger] self.model@.dom().contains(d) implies exists|
                    k: int,
                | 0 <= k < self.rooms@.len() && self.rooms@[k].doc_id@ == d by {
                    let k = choose|k: int| 0 <= k < old_rooms.len() && old_rooms[k].doc_id@ == d;
                    assert(self.rooms@[k].doc_id@ == d);
                }
            }
        }
    }
}

} // verus!
