//! Properties by name and the watched users.

use crate::text::views;
use vstd::prelude::*;
use vstd::string::*;

verus! {

/// A named property.
#[derive(Debug)]
struct Prop {
    name: String,
    value: String,
}

/// The configuration: properties by name, and the logins of the watched
/// users, each once, in the order in which they were first followed.
#[derive(Debug)]
pub struct Conf {
    props: Vec<Prop>,
    watched_users: Vec<String>,
}

/// `items` without `item`.
pub open spec fn without(items: Seq<Seq<char>>, item: Seq<char>) -> Seq<Seq<char>>
    decreases items.len(),
{
    if items.len() == 0 {
        items
    } else if items.last() == item {
        without(items.drop_last(), item)
    } else {
        without(items.drop_last(), item).push(items.last())
    }
}

/// Whether no item stands twice in `items`.
pub open spec fn distinct(items: Seq<Seq<char>>) -> bool {
    forall|i: int, j: int| 0 <= i < j < items.len() ==> items[i] != items[j]
}

/// Taking away the one occurrence of an item leaves the others in place.
pub proof fn lemma_without_one(items: Seq<Seq<char>>, at: int)
    requires
        distinct(items),
        0 <= at < items.len(),
    ensures
        without(items, items[at]) == items.remove(at),
    decreases items.len(),
{
    let item = items[at];
    let front = items.drop_last();
    if at == items.len() - 1 {
        lemma_without_absent(front, item);
        assert(items.remove(at) =~= front);
    } else {
        assert(front[at] == item);
        lemma_without_one(front, at);
        assert(items.last() != item);
        assert(items.remove(at) =~= front.remove(at).push(items.last()));
    }
}

/// Taking away an item that does not occur changes nothing.
pub proof fn lemma_without_absent(items: Seq<Seq<char>>, item: Seq<char>)
    requires
        forall|i: int| 0 <= i < items.len() ==> items[i] != item,
    ensures
        without(items, item) == items,
    decreases items.len(),
{
    if items.len() > 0 {
        let front = items.drop_last();
        assert forall|i: int| 0 <= i < front.len() implies front[i] != item by {
            assert(front[i] == items[i]);
        }
        lemma_without_absent(front, item);
        assert(front.push(items.last()) =~= items);
    }
}

impl Conf {
    #[verifier::type_invariant]
    spec fn wf(self) -> bool {
        &&& forall|i: int, j: int|
            0 <= i < j < self.props.len() ==> self.props[i].name@ != self.props[j].name@
        &&& distinct(views(self.watched_users@))
    }

    spec fn place(self, name: Seq<char>) -> int {
        choose|i: int| 0 <= i < self.props.len() && self.props[i].name@ == name
    }

    /// The properties, by name.
    pub closed spec fn props(self) -> Map<Seq<char>, Seq<char>> {
        Map::new(
            |name: Seq<char>|
                exists|i: int| 0 <= i < self.props.len() && self.props[i].name@ == name,
            |name: Seq<char>| self.props[self.place(name)].value@,
        )
    }

    /// The logins of the watched users, each once.
    pub closed spec fn watched(self) -> Seq<Seq<char>> {
        views(self.watched_users@)
    }

    proof fn lemma_prop_at(self, i: int)
        requires
            self.wf(),
            0 <= i < self.props.len(),
        ensures
            self.props().dom().contains(self.props[i].name@),
            self.props()[self.props[i].name@] == self.props[i].value@,
    {
        let name = self.props[i].name@;
        let j = self.place(name);
        assert(0 <= j < self.props.len() && self.props[j].name@ == name);
        assert(j == i);
    }

    /// A configuration without properties or watched users.
    pub fn new() -> (conf: Self)
        ensures
            conf.props() == Map::<Seq<char>, Seq<char>>::empty(),
            conf.watched() == Seq::<Seq<char>>::empty(),
    {
        let conf = Conf { props: Vec::new(), watched_users: Vec::new() };
        assert(conf.props() =~= Map::<Seq<char>, Seq<char>>::empty());
        assert(conf.watched() =~= Seq::<Seq<char>>::empty());
        conf
    }

    fn find(&self, name: &str) -> (found: Option<usize>)
        ensures
            match found {
                Some(i) => i < self.props.len() && self.props[i as int].name@ == name@
                    && self.props().dom().contains(name@) && self.props()[name@]
                    == self.props[i as int].value@,
                None => !self.props().dom().contains(name@),
            },
    {
        let mut i: usize = 0;
        while i < self.props.len()
            invariant
                i <= self.props.len(),
                forall|k: int| 0 <= k < i ==> self.props[k].name@ != name@,
            decreases self.props.len() - i,
        {
            if self.props[i].name.as_str().eq(name) {
                proof {
                    use_type_invariant(self);
                    self.lemma_prop_at(i as int);
                }
                return Some(i);
            }
            i += 1;
        }
        None
    }

    /// Gives the property `name` the value `value`.
    pub fn set(&mut self, name: String, value: String)
        ensures
            final(self).props() == old(self).props().insert(name@, value@),
            final(self).watched() == old(self).watched(),
    {
        proof {
            use_type_invariant(&*self);
        }
        let place = self.find(name.as_str());
        let mut props: Vec<Prop> = Vec::new();
        core::mem::swap(&mut self.props, &mut props);
        match place {
            Some(i) => {
                props.set(i, Prop { name, value });
            },
            None => {
                props.push(Prop { name, value });
            },
        }
        core::mem::swap(&mut self.props, &mut props);
        proof {
            use_type_invariant(&*self);
            let before = *old(self);
            let after = *self;
            let wanted = before.props().insert(name@, value@);
            let at: int = match place {
                Some(i) => i as int,
                None => before.props.len() as int,
            };
            after.lemma_prop_at(at);
            assert forall|key: Seq<char>| after.props().dom().contains(key) implies wanted.dom().contains(
                key,
            ) && after.props()[key] == wanted[key] by {
                let j = after.place(key);
                if j != at {
                    before.lemma_prop_at(j);
                    after.lemma_prop_at(j);
                }
            }
            assert forall|key: Seq<char>| wanted.dom().contains(key) implies after.props().dom().contains(
                key,
            ) by {
                if key != name@ {
                    let j = before.place(key);
                    before.lemma_prop_at(j);
                    after.lemma_prop_at(j);
                }
            }
            assert(after.props() =~= wanted);
        }
    }

    /// The value of the property `name`.
    pub fn get(&self, name: &str) -> (value: Option<&str>)
        ensures
            value is Some <==> self.props().dom().contains(name@),
            value matches Some(text) ==> text@ == self.props()[name@],
    {
        match self.find(name) {
            Some(i) => Some(self.props[i].value.as_str()),
            None => None,
        }
    }

    /// Where `name` stands among the watched users.
    fn watched_place(&self, name: &str) -> (found: Option<usize>)
        ensures
            match found {
                Some(i) => i < self.watched().len() && self.watched()[i as int] == name@,
                None => forall|k: int| 0 <= k < self.watched().len() ==> self.watched()[k] != name@,
            },
    {
        let mut i: usize = 0;
        while i < self.watched_users.len()
            invariant
                i <= self.watched_users.len(),
                forall|k: int| 0 <= k < i ==> self.watched_users[k]@ != name@,
            decreases self.watched_users.len() - i,
        {
            if self.watched_users[i].as_str().eq(name) {
                return Some(i);
            }
            i += 1;
        }
        None
    }

    /// Starts watching a user: the login joins the watched users unless it
    /// is among them already.
    pub fn follow(&mut self, name: String)
        ensures
            final(self).watched() == if old(self).watched().contains(name@) {
                old(self).watched()
            } else {
                old(self).watched().push(name@)
            },
            final(self).props() == old(self).props(),
    {
        proof {
            use_type_invariant(&*self);
        }
        match self.watched_place(name.as_str()) {
            Some(_) => {},
            None => {
                let mut watched: Vec<String> = Vec::new();
                core::mem::swap(&mut self.watched_users, &mut watched);
                watched.push(name);
                assert(views(watched@) =~= old(self).watched().push(name@));
                core::mem::swap(&mut self.watched_users, &mut watched);
            },
        }
    }

    /// Stops watching a user.
    pub fn unfollow(&mut self, name: &str)
        ensures
            final(self).watched() == without(old(self).watched(), name@),
            final(self).props() == old(self).props(),
    {
        proof {
            use_type_invariant(&*self);
        }
        match self.watched_place(name) {
            Some(i) => {
                proof {
                    lemma_without_one(self.watched(), i as int);
                }
                let mut watched: Vec<String> = Vec::new();
                core::mem::swap(&mut self.watched_users, &mut watched);
                watched.remove(i);
                assert(views(watched@) =~= old(self).watched().remove(i as int));
                core::mem::swap(&mut self.watched_users, &mut watched);
            },
            None => {
                proof {
                    lemma_without_absent(self.watched(), name@);
                }
            },
        }
    }

    /// The properties as pairs of a name and its value, each name once.
    pub fn properties(&self) -> (pairs: Vec<(String, String)>)
        ensures
            forall|i: int|
                0 <= i < pairs.len() ==> self.props().dom().contains((#[trigger] pairs[i]).0@)
                    && self.props()[pairs[i].0@] == pairs[i].1@,
            forall|name: Seq<char>|
                self.props().dom().contains(name) ==> exists|i: int|
                    0 <= i < pairs.len() && (#[trigger] pairs[i]).0@ == name,
            forall|i: int, j: int| 0 <= i < j < pairs.len() ==> pairs[i].0@ != pairs[j].0@,
    {
        proof {
            use_type_invariant(self);
        }
        let mut pairs: Vec<(String, String)> = Vec::new();
        let mut i: usize = 0;
        while i < self.props.len()
            invariant
                i <= self.props.len(),
                pairs.len() == i,
                self.wf(),
                forall|k: int|
                    0 <= k < i ==> (#[trigger] pairs[k]).0@ == self.props[k].name@ && pairs[k].1@
                        == self.props[k].value@,
            decreases self.props.len() - i,
        {
            pairs.push((self.props[i].name.clone(), self.props[i].value.clone()));
            i += 1;
        }
        proof {
            assert forall|k: int| 0 <= k < pairs.len() implies self.props().dom().contains(
                (#[trigger] pairs[k]).0@,
            ) && self.props()[pairs[k].0@] == pairs[k].1@ by {
                self.lemma_prop_at(k);
            }
            assert forall|name: Seq<char>| self.props().dom().contains(name) implies exists|
                k: int,
            |
                0 <= k < pairs.len() && (#[trigger] pairs[k]).0@ == name by {
                let k = self.place(name);
                assert(pairs[k].0@ == name);
            }
        }
        pairs
    }

    /// The logins of the watched users, each once.
    pub fn watched_users(&self) -> (watched: &Vec<String>)
        ensures
            views(watched@) == self.watched(),
            distinct(self.watched()),
    {
        proof {
            use_type_invariant(self);
        }
        &self.watched_users
    }
}

} // verus!
