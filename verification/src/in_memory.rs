//! The in-memory response store: built once from recorded (request,
//! response) pairs, grouped by canonical URL in recording order, and served
//! through a per-key cursor that only `respond_to` advances.

use vstd::prelude::*;
use vstd::map::*;

use crate::behaviour::ResponderBehaviour;
use crate::behaviour::is_chosen;
use crate::behaviour::chosen_index;
use crate::behaviour::lemma_sequential_wrapping_cycle;
use crate::behaviour::opt_int;
use crate::behaviour::wrapping_cursor;
use crate::req_resp::HarResponder;
use crate::req_resp::Request;
use crate::req_resp::Response;
use crate::req_resp::ResponseView;
use crate::req_resp::ResponderError;

verus! {

/// The selection state of one canonical key: every recorded response for it,
/// in recording order, and the index of the last one served.
struct StatefulResponses {
    responses: Vec<Response>,
    behaviour: ResponderBehaviour,
    last_index: Option<usize>,
}

struct Entry {
    key: Request,
    state: StatefulResponses,
}

/// Mathematical image of one key's state.
pub ghost struct GroupModel {
    /// The recorded responses, in the order they were supplied to `new`.
    pub responses: Seq<ResponseView>,
    /// The behaviour every selection for this key follows.
    pub behaviour: ResponderBehaviour,
    /// The index of the last response served, if any was.
    pub last_index: Option<int>,
}

spec fn group_model(s: StatefulResponses) -> GroupModel {
    GroupModel {
        responses: s.responses@.map_values(|r: Response| r@),
        behaviour: s.behaviour,
        last_index: opt_int(s.last_index),
    }
}

spec fn entry_key(e: Entry) -> Seq<char> {
    e.key.canonical_url@
}

spec fn entries_model(s: Seq<Entry>) -> Map<Seq<char>, GroupModel>
    decreases s.len(),
{
    if s.len() == 0 {
        Map::<Seq<char>, GroupModel>::empty()
    } else {
        entries_model(s.drop_last()).insert(entry_key(s.last()), group_model(s.last().state))
    }
}

spec fn distinct_keys(s: Seq<Entry>) -> bool {
    forall|i: int, j: int|
        0 <= i < j < s.len() ==> entry_key(s[i]) != entry_key(s[j])
}

spec fn entries_wf(s: Seq<Entry>) -> bool {
    distinct_keys(s) && (forall|i: int|
        0 <= i < s.len() ==> (#[trigger] s[i].state.responses)@.len() >= 1) && (forall|i: int|
        0 <= i < s.len() ==> match (#[trigger] s[i].state.last_index) {
            Option::Some(l) => (l as int) < s[i].state.responses@.len(),
            Option::None => true,
        })
}

proof fn lemma_model_absent(s: Seq<Entry>, url: Seq<char>)
    requires
        forall|i: int| 0 <= i < s.len() ==> entry_key(#[trigger] s[i]) != url,
    ensures
        !entries_model(s).contains_key(url),
    decreases s.len(),
{
    if s.len() > 0 {
        assert(forall|i: int|
            0 <= i < s.drop_last().len() ==> #[trigger] s.drop_last()[i] == s[i]);
        lemma_model_absent(s.drop_last(), url);
    }
}

proof fn lemma_model_get(s: Seq<Entry>, i: int)
    requires
        distinct_keys(s),
        0 <= i < s.len(),
    ensures
        entries_model(s).contains_key(entry_key(s[i])),
        entries_model(s)[entry_key(s[i])] == group_model(s[i].state),
    decreases s.len(),
{
    if i < s.len() - 1 {
        assert(forall|j: int|
            0 <= j < s.drop_last().len() ==> #[trigger] s.drop_last()[j] == s[j]);
        lemma_model_get(s.drop_last(), i);
        assert(entry_key(s.last()) != entry_key(s[i]));
    }
}

proof fn lemma_model_update(s1: Seq<Entry>, s2: Seq<Entry>, i: int)
    requires
        distinct_keys(s1),
        s1.len() == s2.len(),
        0 <= i < s1.len(),
        forall|j: int| 0 <= j < s1.len() && j != i ==> s2[j] == s1[j],
        entry_key(s2[i]) == entry_key(s1[i]),
    ensures
        entries_model(s2) == entries_model(s1).insert(
            entry_key(s1[i]),
            group_model(s2[i].state),
        ),
    decreases s1.len(),
{
    let url = entry_key(s1[i]);
    if i == s1.len() - 1 {
        assert(s2.drop_last() =~= s1.drop_last());
        assert_maps_equal!(
            entries_model(s2),
            entries_model(s1).insert(url, group_model(s2[i].state))
        );
    } else {
        assert(forall|j: int|
            0 <= j < s1.drop_last().len() ==> #[trigger] s1.drop_last()[j] == s1[j]);
        assert(forall|j: int|
            0 <= j < s2.drop_last().len() ==> #[trigger] s2.drop_last()[j] == s2[j]);
        lemma_model_update(s1.drop_last(), s2.drop_last(), i);
        assert(s2.last() == s1.last());
        assert(entry_key(s1.last()) != url);
        assert_maps_equal!(
            entries_model(s2),
            entries_model(s1).insert(url, group_model(s2[i].state))
        );
    }
}

/// The store a sequence of records builds: records are grouped by the
/// canonical URL of their request, each group keeps its responses in record
/// order, and every cursor starts out empty.
pub open spec fn store_model_of(
    records: Seq<(Request, Response)>,
    behaviour: ResponderBehaviour,
) -> Map<Seq<char>, GroupModel>
    decreases records.len(),
{
    if records.len() == 0 {
        Map::<Seq<char>, GroupModel>::empty()
    } else {
        let prefix = store_model_of(records.drop_last(), behaviour);
        let url = records.last().0@.canonical_url;
        let resp = records.last().1@;
        if prefix.contains_key(url) {
            prefix.insert(
                url,
                GroupModel { responses: prefix[url].responses.push(resp), ..prefix[url] },
            )
        } else {
            prefix.insert(
                url,
                GroupModel {
                    responses: seq![resp],
                    behaviour,
                    last_index: Option::None,
                },
            )
        }
    }
}

/// How one `respond_to` call may change the store: a miss leaves it alone
/// and reports `RequestNotFound`; a hit either serves a response the key's
/// behaviour chose — moving only that key's cursor onto the served index —
/// or reports `ResponseNotFound` exactly when the behaviour chose nothing,
/// leaving the cursor where it was.
pub open spec fn respond_transition(
    pre: Map<Seq<char>, GroupModel>,
    url: Seq<char>,
    post: Map<Seq<char>, GroupModel>,
    r: Result<Response, ResponderError>,
) -> bool {
    if !pre.contains_key(url) {
        r == Result::<Response, ResponderError>::Err(ResponderError::RequestNotFound) && post
            == pre
    } else {
        let g = pre[url];
        let len = g.responses.len() as int;
        match r {
            Result::Err(e) => e == ResponderError::ResponseNotFound && is_chosen(
                g.behaviour,
                g.last_index,
                len,
                Option::None,
            ) && post == pre,
            Result::Ok(resp) => exists|i: int|
                #![auto]
                0 <= i < len && is_chosen(g.behaviour, g.last_index, len, Option::Some(i))
                    && resp@ == g.responses[i] && post == pre.insert(
                    url,
                    (GroupModel { last_index: Option::Some(i), ..g }),
                ),
        }
    }
}

/// The store and the per-key cursors, owned and mutated only through
/// `respond_to`.
pub struct InMemoryResponder {
    entries: Vec<Entry>,
}

impl InMemoryResponder {
    #[verifier::type_invariant]
    spec fn wf(&self) -> bool {
        entries_wf(self.entries@)
    }

    /// The store as a map from canonical URL to that key's group.
    pub closed spec fn model(&self) -> Map<Seq<char>, GroupModel> {
        entries_model(self.entries@)
    }

    /// Builds the store from recorded pairs: one group per canonical URL,
    /// responses in supply order, every cursor empty, one behaviour for all.
    pub fn new(behaviour: ResponderBehaviour, records: Vec<(Request, Response)>) -> (r: Self)
        ensures
            r.model() == store_model_of(records@, behaviour),
    {
        let ghost orig = records@;
        let mut records = records;
        let mut entries: Vec<Entry> = Vec::new();
        let ghost k: int = 0;
        loop
            invariant
                0 <= k <= orig.len(),
                records@ =~= orig.skip(k),
                entries_wf(entries@),
                entries_model(entries@) == store_model_of(orig.take(k), behaviour),
                forall|i: int|
                    0 <= i < entries@.len() ==> (#[trigger] entries@[i].state.last_index)
                        is None,
                forall|i: int|
                    0 <= i < entries@.len() ==> (#[trigger] entries@[i].state.behaviour)
                        == behaviour,
            ensures
                entries_wf(entries@),
                entries_model(entries@) == store_model_of(orig, behaviour),
            decreases orig.len() - k,
        {
            if records.len() == 0 {
                proof {
                    assert(orig.take(k) =~= orig);
                }
                break;
            }
            let pair = records.remove(0);
            let (req, resp) = pair;
            let ghost pre_entries = entries@;
            let n = entries.len();
            let mut j: usize = 0;
            loop
                invariant
                    j <= n,
                    n == entries@.len(),
                    entries@ == pre_entries,
                    forall|jj: int|
                        0 <= jj < j ==> entry_key(#[trigger] entries@[jj]) != req.canonical_url@,
                ensures
                    j <= n,
                    entries@ == pre_entries,
                    j < n ==> entry_key(entries@[j as int]) == req.canonical_url@,
                    forall|jj: int|
                        0 <= jj < j ==> entry_key(#[trigger] entries@[jj]) != req.canonical_url@,
                decreases n - j,
            {
                if j == n {
                    break;
                }
                if entries[j].key.canonical_url == req.canonical_url {
                    break;
                }
                j = j + 1;
            }
            if j < n {
                let mut e = entries.remove(j);
                e.state.responses.push(resp);
                entries.insert(j, e);
                proof {
                    assert(entries@ =~= pre_entries.update(
                        j as int,
                        Entry {
                            key: pre_entries[j as int].key,
                            state: StatefulResponses {
                                responses: entries@[j as int].state.responses,
                                behaviour: pre_entries[j as int].state.behaviour,
                                last_index: pre_entries[j as int].state.last_index,
                            },
                        },
                    ));
                    assert(forall|jj: int|
                        0 <= jj < pre_entries.len() && jj != j ==> entries@[jj] == pre_entries[
                            jj
                        ]);
                    lemma_model_get(pre_entries, j as int);
                    lemma_model_update(pre_entries, entries@, j as int);
                    assert(entries@[j as int].state.responses@.map_values(|r: Response| r@)
                        =~= pre_entries[j as int].state.responses@.map_values(
                        |r: Response| r@,
                    ).push(resp@));
                }
            } else {
                let state = StatefulResponses {
                    responses: vec![resp],
                    behaviour,
                    last_index: Option::None,
                };
                entries.push(Entry { key: req, state });
                proof {
                    lemma_model_absent(pre_entries, entry_key(entries@.last()));
                    assert(entries@.drop_last() =~= pre_entries);
                    assert(entries@.last().state.responses@.map_values(|r: Response| r@)
                        =~= seq![resp@]);
                }
            }
            proof {
                assert(orig.take(k + 1).drop_last() =~= orig.take(k));
                assert(orig.take(k + 1).last() == orig[k]);
                assert(orig[k] == (req, resp));
                k = k + 1;
                assert(records@ =~= orig.skip(k));
            }
        }
        InMemoryResponder { entries }
    }

    /// Serves a live request: looks its canonical URL up, lets the key's
    /// behaviour choose among the recorded responses, commits the cursor and
    /// returns a copy of the chosen response — or says why it cannot.
    pub fn respond_to(&mut self, request: &Request) -> (r: Result<Response, ResponderError>)
        ensures
            respond_transition(old(self).model(), request@.canonical_url, final(self).model(), r),
    {
        proof {
            use_type_invariant(&*self);
        }
        let ghost pre = entries_model(self.entries@);
        let mut entries: Vec<Entry> = Vec::new();
        core::mem::swap(&mut entries, &mut self.entries);
        let ghost pre_entries = entries@;
        let n = entries.len();
        let mut j: usize = 0;
        loop
            invariant
                j <= n,
                n == entries@.len(),
                entries@ == pre_entries,
                forall|jj: int|
                    0 <= jj < j ==> entry_key(#[trigger] entries@[jj]) != request.canonical_url@,
            ensures
                j <= n,
                entries@ == pre_entries,
                j < n ==> entry_key(entries@[j as int]) == request.canonical_url@,
                forall|jj: int|
                    0 <= jj < j ==> entry_key(#[trigger] entries@[jj]) != request.canonical_url@,
            decreases n - j,
        {
            if j == n {
                break;
            }
            if entries[j].key.canonical_url == request.canonical_url {
                break;
            }
            j = j + 1;
        }
        if j == n {
            core::mem::swap(&mut entries, &mut self.entries);
            proof {
                lemma_model_absent(pre_entries, request.canonical_url@);
            }
            return Result::Err(ResponderError::RequestNotFound);
        }
        proof {
            lemma_model_get(pre_entries, j as int);
        }
        let length = entries[j].state.responses.len();
        let last = entries[j].state.last_index;
        let chosen = entries[j].state.behaviour.choose_index(last, length);
        match chosen {
            Option::None => {
                proof {
                    assert(is_chosen(
                        pre[request.canonical_url@].behaviour,
                        pre[request.canonical_url@].last_index,
                        pre[request.canonical_url@].responses.len() as int,
                        Option::<int>::None,
                    ));
                }
                core::mem::swap(&mut entries, &mut self.entries);
                Result::Err(ResponderError::ResponseNotFound)
            },
            Option::Some(idx) => {
                proof {
                    lemma_chosen_in_range(
                        pre[request.canonical_url@].behaviour,
                        opt_int(last),
                        length as int,
                        idx as int,
                    );
                }
                let response = entries[j].state.responses[idx].duplicate();
                let mut e = entries.remove(j);
                e.state.last_index = Option::Some(idx);
                entries.insert(j, e);
                proof {
                    assert(forall|jj: int|
                        0 <= jj < pre_entries.len() && jj != j ==> entries@[jj] == pre_entries[
                            jj
                        ]);
                    lemma_model_update(pre_entries, entries@, j as int);
                    assert(group_model(entries@[j as int].state) == (GroupModel {
                        last_index: Option::Some(idx as int),
                        ..pre[request.canonical_url@]
                    }));
                }
                core::mem::swap(&mut entries, &mut self.entries);
                proof {
                    let g = pre[request.canonical_url@];
                    let witness: int = idx as int;
                    assert(0 <= witness < g.responses.len() as int && is_chosen(
                        g.behaviour,
                        g.last_index,
                        g.responses.len() as int,
                        Option::Some(witness),
                    ) && response@ == g.responses[witness] && entries_model(self.entries@)
                        == pre.insert(
                        request.canonical_url@,
                        (GroupModel { last_index: Option::Some(witness), ..g }),
                    ));
                }
                Result::Ok(response)
            },
        }
    }
}

/// The responses of the records whose request canonicalized to `url`, in
/// the order the records stand in.
pub open spec fn responses_for(records: Seq<(Request, Response)>, url: Seq<char>) -> Seq<
    ResponseView,
>
    decreases records.len(),
{
    if records.len() == 0 {
        Seq::<ResponseView>::empty()
    } else {
        let rest = responses_for(records.drop_last(), url);
        if records.last().0@.canonical_url == url {
            rest.push(records.last().1@)
        } else {
            rest
        }
    }
}

/// Building the store groups by canonical URL and keeps recording order: it
/// holds a key exactly when some record canonicalized to it, and that key's
/// responses are exactly those records' responses, in the order supplied.
pub proof fn lemma_store_groups_in_record_order(
    records: Seq<(Request, Response)>,
    behaviour: ResponderBehaviour,
)
    ensures
        forall|url: Seq<char>|
            store_model_of(records, behaviour).contains_key(url) <==> #[trigger] responses_for(
                records,
                url,
            ).len() > 0,
        forall|url: Seq<char>|
            store_model_of(records, behaviour).contains_key(url)
                ==> (#[trigger] store_model_of(records, behaviour)[url]).responses
                == responses_for(records, url),
    decreases records.len(),
{
    if records.len() > 0 {
        lemma_store_groups_in_record_order(records.drop_last(), behaviour);
        let m0 = store_model_of(records.drop_last(), behaviour);
        let last_url = records.last().0@.canonical_url;
        let resp = records.last().1@;
        assert forall|url: Seq<char>|
            store_model_of(records, behaviour).contains_key(url)
                <==> #[trigger] responses_for(records, url).len() > 0 by {
            if url != last_url {
                assert(responses_for(records, url) == responses_for(records.drop_last(), url));
            }
        }
        assert forall|url: Seq<char>| store_model_of(records, behaviour).contains_key(url)
            implies (#[trigger] store_model_of(records, behaviour)[url]).responses
            == responses_for(records, url) by {
            if url == last_url {
                if m0.contains_key(url) {
                    assert(responses_for(records, url) == responses_for(
                        records.drop_last(),
                        url,
                    ).push(resp));
                } else {
                    assert(responses_for(records.drop_last(), url).len() == 0);
                    assert(responses_for(records, url) =~= seq![resp]);
                }
            } else {
                assert(responses_for(records, url) == responses_for(records.drop_last(), url));
            }
        }
    }
}

/// Serialized wrapping replay never loses a draw: if a key replays with
/// `SequentialWrapping` and its cursor is in the state reached after `n`
/// completed serves (`wrapping_cursor`), then any `respond_to` call that
/// completes on it succeeds, serves exactly the `n % length`-th recorded
/// response, and leaves the cursor in the state for serve `n + 1`. Since the
/// store serializes the read-compute-commit of each call, `N` calls against
/// the key return exactly the first `N` draws of the cyclic sequence of its
/// responses — no index skipped or duplicated by a lost update.
pub proof fn lemma_wrapping_serialized_step(
    pre: Map<Seq<char>, GroupModel>,
    url: Seq<char>,
    post: Map<Seq<char>, GroupModel>,
    r: Result<Response, ResponderError>,
    n: nat,
)
    requires
        respond_transition(pre, url, post, r),
        pre.contains_key(url),
        pre[url].behaviour == ResponderBehaviour::SequentialWrapping,
        pre[url].responses.len() >= 1,
        pre[url].last_index == wrapping_cursor(n, pre[url].responses.len() as int),
    ensures
        r matches Result::Ok(resp) && resp@ == pre[url].responses[n as int % pre[url].responses.len() as int],
        post == pre.insert(
            url,
            (GroupModel {
                last_index: wrapping_cursor(n + 1, pre[url].responses.len() as int),
                ..pre[url]
            }),
        ),
{
    let g = pre[url];
    let len = g.responses.len() as int;
    lemma_sequential_wrapping_cycle(n, len);
    assert(chosen_index(g.behaviour, g.last_index, len) == Option::Some(n as int % len));
    match r {
        Result::Err(_) => {
            assert(false);
        },
        Result::Ok(resp) => {
            let i = choose|i: int|
                #![auto]
                0 <= i < len && is_chosen(g.behaviour, g.last_index, len, Option::Some(i))
                    && resp@ == g.responses[i] && post == pre.insert(
                    url,
                    (GroupModel { last_index: Option::Some(i), ..g }),
                );
            assert(i == n as int % len);
        },
    }
}

proof fn lemma_wrapping_trace_prefix(
    states: Seq<Map<Seq<char>, GroupModel>>,
    results: Seq<Result<Response, ResponderError>>,
    url: Seq<char>,
    k: int,
)
    requires
        states.len() == results.len() + 1,
        states[0].contains_key(url),
        states[0][url].behaviour == ResponderBehaviour::SequentialWrapping,
        states[0][url].responses.len() >= 1,
        states[0][url].last_index is None,
        forall|m: int|
            0 <= m < results.len() ==> #[trigger] respond_transition(
                states[m],
                url,
                states[m + 1],
                results[m],
            ),
        0 <= k <= results.len(),
    ensures
        states[k].contains_key(url),
        states[k][url] == (GroupModel {
            last_index: wrapping_cursor(k as nat, states[0][url].responses.len() as int),
            ..states[0][url]
        }),
    decreases k,
{
    if k > 0 {
        lemma_wrapping_trace_prefix(states, results, url, k - 1);
        assert(respond_transition(states[k - 1], url, states[(k - 1) + 1], results[k - 1]));
        lemma_wrapping_serialized_step(
            states[k - 1],
            url,
            states[k],
            results[k - 1],
            (k - 1) as nat,
        );
    }
}

/// Serialized wrapping replay, over a whole run: starting from a fresh key
/// that replays with `SequentialWrapping`, any chain of completed
/// `respond_to` calls against it — however the calls were interleaved with
/// traffic to other keys, since no call touches another key's group — all
/// succeed, and the `k`-th returns exactly the `k % length`-th recorded
/// response: the run is precisely the first `N` draws of the cyclic
/// sequence, with nothing skipped or duplicated by a lost update.
pub proof fn lemma_wrapping_serialized_trace(
    states: Seq<Map<Seq<char>, GroupModel>>,
    results: Seq<Result<Response, ResponderError>>,
    url: Seq<char>,
)
    requires
        states.len() == results.len() + 1,
        states[0].contains_key(url),
        states[0][url].behaviour == ResponderBehaviour::SequentialWrapping,
        states[0][url].responses.len() >= 1,
        states[0][url].last_index is None,
        forall|m: int|
            0 <= m < results.len() ==> #[trigger] respond_transition(
                states[m],
                url,
                states[m + 1],
                results[m],
            ),
    ensures
        forall|k: int|
            0 <= k < results.len() ==> (#[trigger] results[k] matches Result::Ok(resp) && resp@
                == states[0][url].responses[k % states[0][url].responses.len() as int]),
{
    assert forall|k: int|
        0 <= k < results.len() implies (#[trigger] results[k] matches Result::Ok(resp) && resp@
        == states[0][url].responses[k % states[0][url].responses.len() as int]) by {
        lemma_wrapping_trace_prefix(states, results, url, k);
        lemma_wrapping_serialized_step(states[k], url, states[k + 1], results[k], k as nat);
    }
}

/// An exhausted `SequentialOnce` key stays exhausted: once its cursor rests
/// on the last response, a completed call returns `ResponseNotFound` and
/// leaves the store — the cursor included — exactly as it was, so every
/// later call finds the same state and fails the same way.
pub proof fn lemma_once_exhaustion_is_permanent(
    pre: Map<Seq<char>, GroupModel>,
    url: Seq<char>,
    post: Map<Seq<char>, GroupModel>,
    r: Result<Response, ResponderError>,
)
    requires
        respond_transition(pre, url, post, r),
        pre.contains_key(url),
        pre[url].behaviour == ResponderBehaviour::SequentialOnce,
        pre[url].responses.len() >= 1,
        pre[url].last_index == Option::Some(pre[url].responses.len() - 1),
    ensures
        r == Result::<Response, ResponderError>::Err(ResponderError::ResponseNotFound),
        post == pre,
{
    let g = pre[url];
    let len = g.responses.len() as int;
    assert(chosen_index(g.behaviour, g.last_index, len) is None);
}

/// `AlwaysFirst` and `AlwaysLast` are idempotent on the store: however many
/// calls went before and whatever they left in the cursor, a completed hit
/// serves the first (respectively last) recorded response of the key.
pub proof fn lemma_always_first_last_store(
    pre: Map<Seq<char>, GroupModel>,
    url: Seq<char>,
    post: Map<Seq<char>, GroupModel>,
    r: Result<Response, ResponderError>,
)
    requires
        respond_transition(pre, url, post, r),
        pre.contains_key(url),
        pre[url].responses.len() >= 1,
        pre[url].behaviour == ResponderBehaviour::AlwaysFirst || pre[url].behaviour
            == ResponderBehaviour::AlwaysLast,
    ensures
        r matches Result::Ok(resp) && resp@ == (if pre[url].behaviour
            == ResponderBehaviour::AlwaysFirst {
            pre[url].responses[0]
        } else {
            pre[url].responses[pre[url].responses.len() - 1]
        }),
{
    let g = pre[url];
    let len = g.responses.len() as int;
    let expected: int = if g.behaviour == ResponderBehaviour::AlwaysFirst {
        0
    } else {
        len - 1
    };
    assert(chosen_index(g.behaviour, g.last_index, len) == Option::Some(expected));
    match r {
        Result::Err(_) => {
            assert(false);
        },
        Result::Ok(resp) => {
            let i = choose|i: int|
                #![auto]
                0 <= i < len && is_chosen(g.behaviour, g.last_index, len, Option::Some(i))
                    && resp@ == g.responses[i] && post == pre.insert(
                    url,
                    (GroupModel { last_index: Option::Some(i), ..g }),
                );
            assert(i == expected);
        },
    }
}

/// A canonical URL that was never recorded fails as `RequestNotFound`, never
/// as `ResponseNotFound`, and such a miss does not disturb the store.
pub proof fn lemma_miss_is_request_not_found(
    pre: Map<Seq<char>, GroupModel>,
    url: Seq<char>,
    post: Map<Seq<char>, GroupModel>,
    r: Result<Response, ResponderError>,
)
    requires
        respond_transition(pre, url, post, r),
        !pre.contains_key(url),
    ensures
        r == Result::<Response, ResponderError>::Err(ResponderError::RequestNotFound),
        post == pre,
{
}

/// Whatever records a store is built from, every group it holds was created
/// with at least one response, the behaviour chosen at startup, and an empty
/// cursor.
pub proof fn lemma_store_groups_fresh(
    records: Seq<(Request, Response)>,
    behaviour: ResponderBehaviour,
)
    ensures
        forall|url: Seq<char>|
            store_model_of(records, behaviour).contains_key(url) ==> {
                let g = #[trigger] store_model_of(records, behaviour)[url];
                g.responses.len() >= 1 && g.behaviour == behaviour && g.last_index is None
            },
    decreases records.len(),
{
    if records.len() > 0 {
        lemma_store_groups_fresh(records.drop_last(), behaviour);
    }
}

/// Whatever a behaviour chooses is the index of one of the key's responses.
proof fn lemma_chosen_in_range(b: ResponderBehaviour, last: Option<int>, length: int, i: int)
    requires
        is_chosen(b, last, length, Option::Some(i)),
        match last {
            Option::Some(l) => l >= 0,
            Option::None => true,
        },
    ensures
        0 <= i < length,
{
    if !(b is Random) {
        match b {
            ResponderBehaviour::SequentialWrapping => {
                match last {
                    Option::Some(l) => {
                        vstd::arithmetic::div_mod::lemma_mod_bound(l + 1, length);
                    },
                    Option::None => {},
                }
            },
            _ => {},
        }
    }
}

impl HarResponder for InMemoryResponder {
    /// The trait view of `InMemoryResponder::respond_to`; the inherent
    /// method carries the full contract.
    fn respond_to(&mut self, request: &Request) -> Result<Response, ResponderError> {
        InMemoryResponder::respond_to(self, request)
    }
}

} // verus!
