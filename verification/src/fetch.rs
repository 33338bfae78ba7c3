//! The batched remote-fetch pipeline: ids are partitioned into fixed-size
//! batches, each batch becomes one request, and the results stream back
//! as an ordered sequence of events — the items of a batch, a cumulative
//! progress event after each batch, and one terminal event at the end.
//! The surrounding program performs the network calls and the inter-batch
//! delay; everything decided here is a function of plain values.

use vstd::prelude::*;

use crate::text;

verus! {

/// At most this many ids travel in one request.
pub const BATCH_SIZE: usize = 50;

/// The ids partitioned into batches: full batches of `BATCH_SIZE`, in
/// order, with whatever remains as the final shorter batch.
pub open spec fn spec_batches(ids: Seq<Seq<char>>) -> Seq<Seq<Seq<char>>>
    decreases ids.len(),
{
    if ids.len() == 0 {
        Seq::empty()
    } else if ids.len() <= BATCH_SIZE {
        seq![ids]
    } else {
        seq![ids.take(BATCH_SIZE as int)] + spec_batches(ids.skip(BATCH_SIZE as int))
    }
}

/// All the batches joined back together, in order.
pub open spec fn concat_all(bs: Seq<Seq<Seq<char>>>) -> Seq<Seq<char>>
    decreases bs.len(),
{
    if bs.len() == 0 {
        Seq::empty()
    } else {
        bs.first() + concat_all(bs.drop_first())
    }
}

/// The shape of the batch plan: every batch before the last holds exactly
/// `BATCH_SIZE` ids, the last holds between one and `BATCH_SIZE`, and the
/// batches joined in order give back exactly the requested ids.
pub proof fn lemma_batches_shape(ids: Seq<Seq<char>>)
    ensures
        forall|k: int|
            0 <= k < spec_batches(ids).len() ==> 1 <= (#[trigger] spec_batches(ids)[k]).len()
                <= BATCH_SIZE,
        forall|k: int|
            0 <= k < spec_batches(ids).len() - 1 ==> (#[trigger] spec_batches(ids)[k]).len()
                == BATCH_SIZE,
        concat_all(spec_batches(ids)) == ids,
    decreases ids.len(),
{
    if ids.len() == 0 {
        assert(concat_all(spec_batches(ids)) =~= ids);
    } else if ids.len() <= BATCH_SIZE {
        let bs = spec_batches(ids);
        assert(bs == seq![ids]);
        assert(bs.drop_first() =~= Seq::<Seq<Seq<char>>>::empty());
        assert(concat_all(bs) == ids + concat_all(bs.drop_first()));
        assert(concat_all(bs) =~= ids);
    } else {
        let head = ids.take(BATCH_SIZE as int);
        let tail = ids.skip(BATCH_SIZE as int);
        lemma_batches_shape(tail);
        let bs = spec_batches(ids);
        let rest = spec_batches(tail);
        assert(bs == seq![head] + rest);
        assert(bs.first() == head);
        assert(bs.drop_first() =~= rest);
        assert(concat_all(bs) == head + concat_all(rest));
        assert(concat_all(bs) =~= ids);
        assert(forall|k: int|
            0 <= k < rest.len() ==> bs[k + 1] == #[trigger] rest[k]);
        assert(forall|k: int|
            1 <= k < bs.len() ==> #[trigger] bs[k] == rest[k - 1]);
    }
}

/// Partitions the ids into request batches of at most `BATCH_SIZE`, in
/// order, copying each id.
pub fn plan_batches(ids: &Vec<String>) -> (r: Vec<Vec<String>>)
    ensures
        r.deep_view() == spec_batches(ids.deep_view()),
{
    let ghost full = ids.deep_view();
    let n = ids.len();
    let mut r: Vec<Vec<String>> = Vec::new();
    let mut i: usize = 0;
    proof {
        assert(full.skip(0) =~= full);
        assert(r.deep_view() + spec_batches(full) =~= spec_batches(full));
    }
    while i < n
        invariant
            i <= n,
            n == ids@.len(),
            full == ids.deep_view(),
            full.len() == n,
            spec_batches(full) == r.deep_view() + spec_batches(full.skip(i as int)),
        decreases n - i,
    {
        let ghost prev = r.deep_view();
        let end = if n - i < BATCH_SIZE {
            n
        } else {
            i + BATCH_SIZE
        };
        let mut chunk: Vec<String> = Vec::new();
        let mut j = i;
        while j < end
            invariant
                i <= j <= end <= n,
                n == ids@.len(),
                chunk@.len() == j - i,
                forall|t: int| 0 <= t < j - i ==> chunk@[t]@ == ids@[i + t]@,
            decreases end - j,
        {
            chunk.push(ids[j].clone());
            j = j + 1;
        }
        r.push(chunk);
        proof {
            let restv = full.skip(i as int);
            if n - i < BATCH_SIZE {
                assert(chunk.deep_view() =~= restv);
                assert(spec_batches(restv) == seq![restv]);
                assert(r.deep_view() =~= prev.push(restv));
                assert(prev + seq![restv] =~= prev.push(restv));
                assert(spec_batches(full.skip(end as int)) =~= Seq::<Seq<Seq<char>>>::empty());
                assert(prev.push(restv) + Seq::<Seq<Seq<char>>>::empty() =~= prev.push(restv));
            } else {
                assert(chunk.deep_view() =~= restv.take(BATCH_SIZE as int));
                assert(restv.skip(BATCH_SIZE as int) =~= full.skip(end as int));
                if restv.len() == BATCH_SIZE {
                    assert(restv.take(BATCH_SIZE as int) =~= restv);
                    assert(spec_batches(restv) == seq![restv]);
                    assert(full.skip(end as int).len() == 0);
                    assert(spec_batches(full.skip(end as int)) =~= Seq::<Seq<Seq<char>>>::empty());
                    assert(r.deep_view() =~= prev.push(restv));
                    assert(prev + seq![restv] =~= prev.push(restv));
                    assert(prev.push(restv) + Seq::<Seq<Seq<char>>>::empty() =~= prev.push(restv));
                } else {
                    assert(spec_batches(restv) == seq![restv.take(BATCH_SIZE as int)]
                        + spec_batches(restv.skip(BATCH_SIZE as int)));
                    assert(r.deep_view() =~= prev.push(restv.take(BATCH_SIZE as int)));
                    assert(prev + (seq![restv.take(BATCH_SIZE as int)] + spec_batches(
                        full.skip(end as int),
                    )) =~= prev.push(restv.take(BATCH_SIZE as int)) + spec_batches(
                        full.skip(end as int),
                    ));
                }
            }
        }
        i = end;
    }
    proof {
        assert(full.skip(n as int).len() == 0);
        assert(spec_batches(full.skip(n as int)) =~= Seq::<Seq<Seq<char>>>::empty());
        assert(r.deep_view() + Seq::<Seq<Seq<char>>>::empty() =~= r.deep_view());
    }
    r
}

/// One request's form parameters: the item count first, then one indexed
/// field per id, in batch order.
pub fn build_batch_params(batch: &Vec<String>) -> (r: Vec<(String, String)>)
    ensures
        r@.len() == batch@.len() + 1,
        r@[0].0@ == "itemcount"@,
        text::is_decimal_of(r@[0].1@, batch@.len() as int),
        forall|k: int|
            0 <= k < batch@.len() ==> {
                &&& (#[trigger] r@[k + 1]).1@ == batch@[k]@
                &&& exists|d: Seq<char>|
                    {
                        &&& text::is_decimal_of(d, k)
                        &&& (#[trigger] r@[k + 1]).0@ == "publishedfileids["@ + d + "]"@
                    }
            },
{
    let mut r: Vec<(String, String)> = Vec::new();
    let count = text::u64_to_string(batch.len() as u64);
    r.push((String::from_str("itemcount"), count));
    let n = batch.len();
    let mut k: usize = 0;
    while k < n
        invariant
            k <= n,
            n == batch@.len(),
            r@.len() == k + 1,
            r@[0].0@ == "itemcount"@,
            text::is_decimal_of(r@[0].1@, batch@.len() as int),
            forall|j: int|
                0 <= j < k ==> {
                    &&& (#[trigger] r@[j + 1]).1@ == batch@[j]@
                    &&& exists|d: Seq<char>|
                        {
                            &&& text::is_decimal_of(d, j)
                            &&& (#[trigger] r@[j + 1]).0@ == "publishedfileids["@ + d + "]"@
                        }
                },
        decreases n - k,
    {
        let digits = text::u64_to_string(k as u64);
        let ghost d = digits@;
        let mut key = String::from_str("publishedfileids[");
        key.append(digits.as_str());
        key.append("]");
        proof {
            assert(key@ =~= "publishedfileids["@ + d + "]"@);
            assert(text::is_decimal_of(d, k as int));
        }
        r.push((key, batch[k].clone()));
        proof {
            assert(r@[k as int + 1].0@ == "publishedfileids["@ + d + "]"@);
            assert(r@[k as int + 1].1@ == batch@[k as int]@);
        }
        k = k + 1;
    }
    r
}

/// The fetch gate: at most one fetch runs at a time.  `Fetching` carries
/// how many items have arrived and how many were requested.
pub enum FetchState {
    Idle,
    Fetching { done: usize, total: usize },
}

impl FetchState {
    /// Accepts a new fetch only when idle; a request while one fetch is
    /// outstanding is rejected and changes nothing.
    pub fn try_start(&mut self, total: usize) -> (accepted: bool)
        ensures
            accepted == (*old(self) is Idle),
            accepted ==> *final(self) == (FetchState::Fetching { done: 0, total }),
            !accepted ==> *final(self) == *old(self),
    {
        match self {
            FetchState::Idle => {
                *self = FetchState::Fetching { done: 0, total };
                true
            },
            FetchState::Fetching { .. } => false,
        }
    }

    /// Advances on one received event: an item counts one more arrival
    /// (saturating at the machine limit), the terminal event returns to
    /// idle, and a progress event carries no new state of its own.
    /// Events arriving while idle change nothing.
    pub fn on_event(&mut self, ev: &FetchEvent)
        ensures
            match *old(self) {
                FetchState::Idle => *final(self) == *old(self),
                FetchState::Fetching { done, total } => match ev {
                    FetchEvent::Item { .. } => *final(self) == (FetchState::Fetching {
                        done: if done < usize::MAX {
                            (done + 1) as usize
                        } else {
                            done
                        },
                        total,
                    }),
                    FetchEvent::Progress { .. } => *final(self) == *old(self),
                    FetchEvent::Done => *final(self) is Idle,
                },
            },
    {
        match self {
            FetchState::Idle => {},
            FetchState::Fetching { done, total } => match ev {
                FetchEvent::Item { .. } => {
                    let d = *done;
                    let t = *total;
                    let nd = if d < usize::MAX {
                        d + 1
                    } else {
                        d
                    };
                    *self = FetchState::Fetching { done: nd, total: t };
                },
                FetchEvent::Progress { .. } => {},
                FetchEvent::Done => {
                    *self = FetchState::Idle;
                },
            },
        }
    }
}

/// Ghost model of one emitted event.
pub enum EventModel {
    Item(Seq<char>, Seq<char>, Seq<char>),
    Progress(int, int),
    Done,
}

/// One event of a fetch operation: a fetched item, cumulative progress
/// after a batch, or the terminal mark.
#[derive(Clone, Debug)]
pub enum FetchEvent {
    Item { id: String, title: String, updated: String },
    Progress { done: usize, total: usize },
    Done,
}

impl FetchEvent {
    /// The event with its strings read as character sequences.
    pub open spec fn model(&self) -> EventModel {
        match self {
            FetchEvent::Item { id, title, updated } => EventModel::Item(id@, title@, updated@),
            FetchEvent::Progress { done, total } => EventModel::Progress(
                *done as int,
                *total as int,
            ),
            FetchEvent::Done => EventModel::Done,
        }
    }
}

/// The models of a sequence of events.
pub open spec fn events_model(es: Seq<FetchEvent>) -> Seq<EventModel> {
    Seq::new(
        es.len(),
        |i: int|
            if 0 <= i < es.len() {
                es[i].model()
            } else {
                EventModel::Done
            },
    )
}

/// The texts of a sequence of result triples.
pub open spec fn results_model(rs: Seq<(String, String, String)>) -> Seq<
    (Seq<char>, Seq<char>, Seq<char>),
> {
    Seq::new(
        rs.len(),
        |i: int|
            if 0 <= i < rs.len() {
                (rs[i].0@, rs[i].1@, rs[i].2@)
            } else {
                (Seq::empty(), Seq::empty(), Seq::empty())
            },
    )
}

/// The item events of one batch's results, in order.
pub open spec fn items_of(batch: Seq<(Seq<char>, Seq<char>, Seq<char>)>) -> Seq<EventModel> {
    Seq::new(
        batch.len(),
        |j: int|
            if 0 <= j < batch.len() {
                EventModel::Item(batch[j].0, batch[j].1, batch[j].2)
            } else {
                EventModel::Done
            },
    )
}

/// The emitted count after one more batch, capped at the machine limit.
pub open spec fn next_done(done: int, batch_len: int) -> int {
    if done + batch_len > usize::MAX {
        usize::MAX as int
    } else {
        done + batch_len
    }
}

/// The ordered event sequence of a fetch, from batch `i` on, having
/// emitted `done` items already: each batch's items, then one progress
/// event with the cumulative count and the requested total, and after the
/// last batch the terminal event.
pub open spec fn spec_events(
    brs: Seq<Seq<(Seq<char>, Seq<char>, Seq<char>)>>,
    i: int,
    done: int,
    total: int,
) -> Seq<EventModel>
    decreases brs.len() - i,
{
    if i < 0 || i >= brs.len() {
        seq![EventModel::Done]
    } else {
        let batch = brs[i];
        let done2 = next_done(done, batch.len() as int);
        items_of(batch) + seq![EventModel::Progress(done2, total)] + spec_events(
            brs,
            i + 1,
            done2,
            total,
        )
    }
}

/// The terminal event comes last, and only last: every event sequence the
/// fetch emits ends with exactly one terminal mark.
pub proof fn lemma_events_terminal(
    brs: Seq<Seq<(Seq<char>, Seq<char>, Seq<char>)>>,
    i: int,
    done: int,
    total: int,
)
    ensures
        spec_events(brs, i, done, total).len() >= 1,
        spec_events(brs, i, done, total).last() == EventModel::Done,
        forall|j: int|
            0 <= j < spec_events(brs, i, done, total).len() - 1 ==> spec_events(
                brs,
                i,
                done,
                total,
            )[j] != EventModel::Done,
    decreases brs.len() - i,
{
    if 0 <= i < brs.len() {
        let batch = brs[i];
        let done2 = next_done(done, batch.len() as int);
        lemma_events_terminal(brs, i + 1, done2, total);
        let es = spec_events(brs, i, done, total);
        let rest = spec_events(brs, i + 1, done2, total);
        let head = items_of(batch) + seq![EventModel::Progress(done2, total)];
        assert(es == head + rest);
        assert(es.last() == rest.last());
        assert forall|j: int| 0 <= j < es.len() - 1 implies es[j] != EventModel::Done by {
            if j < head.len() {
                assert(es[j] == head[j]);
            } else {
                assert(es[j] == rest[j - head.len()]);
            }
        }
    }
}

/// Builds the full ordered event sequence of one fetch from the per-batch
/// results: every batch's items in order, a cumulative progress event
/// after each batch, and the terminal event last.  `total` is the number
/// of ids requested.
pub fn fetch_events(total: usize, batch_results: &Vec<Vec<(String, String, String)>>) -> (r: Vec<
    FetchEvent,
>)
    ensures
        events_model(r@) == spec_events(
            Seq::new(
                batch_results@.len(),
                |i: int|
                    if 0 <= i < batch_results@.len() {
                        results_model(batch_results@[i]@)
                    } else {
                        Seq::empty()
                    },
            ),
            0,
            0,
            total as int,
        ),
{
    let ghost brs = Seq::new(
        batch_results@.len(),
        |i: int|
            if 0 <= i < batch_results@.len() {
                results_model(batch_results@[i]@)
            } else {
                Seq::<(Seq<char>, Seq<char>, Seq<char>)>::empty()
            },
    );
    let n = batch_results.len();
    let mut r: Vec<FetchEvent> = Vec::new();
    let mut done: usize = 0;
    let mut i: usize = 0;
    proof {
        assert(events_model(r@) + spec_events(brs, 0, 0, total as int) =~= spec_events(
            brs,
            0,
            0,
            total as int,
        ));
    }
    while i < n
        invariant
            i <= n,
            n == batch_results@.len(),
            brs == Seq::new(
                batch_results@.len(),
                |t: int|
                    if 0 <= t < batch_results@.len() {
                        results_model(batch_results@[t]@)
                    } else {
                        Seq::<(Seq<char>, Seq<char>, Seq<char>)>::empty()
                    },
            ),
            brs.len() == n,
            spec_events(brs, 0, 0, total as int) == events_model(r@) + spec_events(
                brs,
                i as int,
                done as int,
                total as int,
            ),
        decreases n - i,
    {
        let ghost base = events_model(r@);
        let ghost batch_model = brs[i as int];
        let batch = &batch_results[i];
        let m = batch.len();
        proof {
            assert(batch_model == results_model(batch@));
            assert(batch_model.len() == m);
        }
        let mut j: usize = 0;
        while j < m
            invariant
                j <= m,
                m == batch@.len(),
                batch_model == results_model(batch@),
                events_model(r@) =~= base + items_of(batch_model).take(j as int),
            decreases m - j,
        {
            let ghost prev = events_model(r@);
            let ev = FetchEvent::Item {
                id: batch[j].0.clone(),
                title: batch[j].1.clone(),
                updated: batch[j].2.clone(),
            };
            r.push(ev);
            proof {
                assert(events_model(r@) =~= prev.push(
                    EventModel::Item(batch@[j as int].0@, batch@[j as int].1@, batch@[j as int].2@),
                ));
                assert(items_of(batch_model).take(j + 1) =~= items_of(batch_model).take(
                    j as int,
                ).push(items_of(batch_model)[j as int]));
                assert(events_model(r@) =~= base + items_of(batch_model).take(j + 1));
            }
            j = j + 1;
        }
        let new_done = if m > usize::MAX - done {
            usize::MAX
        } else {
            done + m
        };
        r.push(FetchEvent::Progress { done: new_done, total });
        proof {
            assert(new_done as int == next_done(done as int, batch_model.len() as int));
            assert(items_of(batch_model).take(m as int) =~= items_of(batch_model));
            assert(spec_events(brs, i as int, done as int, total as int) == items_of(batch_model)
                + seq![EventModel::Progress(new_done as int, total as int)] + spec_events(
                brs,
                i + 1,
                new_done as int,
                total as int,
            ));
            assert(events_model(r@) =~= (base + items_of(batch_model)).push(
                EventModel::Progress(new_done as int, total as int),
            ));
            assert(events_model(r@) + spec_events(brs, i + 1, new_done as int, total as int) =~= base
                + spec_events(brs, i as int, done as int, total as int));
        }
        done = new_done;
        i = i + 1;
    }
    let ghost before_done = events_model(r@);
    r.push(FetchEvent::Done);
    proof {
        assert(spec_events(brs, n as int, done as int, total as int) =~= seq![EventModel::Done]);
        assert(events_model(r@) =~= before_done.push(EventModel::Done));
        assert(events_model(r@) =~= before_done + seq![EventModel::Done]);
    }
    r
}

/// What the metadata service's response text decodes to: one triple of
/// id, title and update time per returned item, a function of the text
/// alone; a malformed response decodes to no items.
pub uninterp spec fn details_of(s: Seq<char>) -> Seq<(Seq<char>, Seq<char>, Seq<char>)>;

/// Relies on serde_json::from_str and serde_json::Value's accessors: the
/// per-item fields are read from the parsed response, with the empty
/// string standing in for a missing id or title and the empty string for
/// a missing update time; a response that is not JSON, or has no item
/// array, yields no items.  The result depends on the text alone.
#[verifier::external_body]
fn extract_details(text: &str) -> (r: Vec<(String, String, String)>)
    ensures
        results_model(r@) == details_of(text@),
{
    let mut out = Vec::new();
    if let Ok(json) = serde_json::from_str::<serde_json::Value>(text) {
        if let Some(items) = json["response"]["publishedfiledetails"].as_array() {
            for item in items {
                let id = item["publishedfileid"].as_str().unwrap_or("").to_string();
                let title = item["title"].as_str().unwrap_or("").to_string();
                let updated = item["time_updated"].as_i64().map(|ts| ts.to_string()).unwrap_or_default();
                out.push((id, title, updated));
            }
        }
    }
    out
}

/// The results each response text contributes: the decoded items of a
/// received response, no items for a batch whose call failed.
pub open spec fn responses_model(responses: Seq<Option<Seq<char>>>) -> Seq<
    Seq<(Seq<char>, Seq<char>, Seq<char>)>,
> {
    Seq::new(
        responses.len(),
        |i: int|
            if 0 <= i < responses.len() {
                match responses[i] {
                    Option::Some(t) => details_of(t),
                    Option::None => Seq::empty(),
                }
            } else {
                Seq::empty()
            },
    )
}

/// Decodes one response text per batch (a failed call is `None` and
/// contributes no items) and builds the fetch's full event sequence.
pub fn fetch_events_from_responses(total: usize, responses: &Vec<Option<String>>) -> (r: Vec<
    FetchEvent,
>)
    ensures
        events_model(r@) == spec_events(responses_model(responses.deep_view()), 0, 0, total as int),
{
    let n = responses.len();
    let mut batch_results: Vec<Vec<(String, String, String)>> = Vec::new();
    let mut i: usize = 0;
    while i < n
        invariant
            i <= n,
            n == responses@.len(),
            batch_results@.len() == i,
            forall|t: int|
                0 <= t < i ==> results_model((#[trigger] batch_results@[t])@)
                    == responses_model(responses.deep_view())[t],
        decreases n - i,
    {
        let br = match &responses[i] {
            Option::Some(text) => extract_details(text.as_str()),
            Option::None => Vec::new(),
        };
        proof {
            if responses@[i as int] is None {
                assert(results_model(br@) =~= Seq::<(Seq<char>, Seq<char>, Seq<char>)>::empty());
            }
        }
        batch_results.push(br);
        i = i + 1;
    }
    let r = fetch_events(total, &batch_results);
    proof {
        assert(Seq::new(
            batch_results@.len(),
            |t: int|
                if 0 <= t < batch_results@.len() {
                    results_model(batch_results@[t]@)
                } else {
                    Seq::<(Seq<char>, Seq<char>, Seq<char>)>::empty()
                },
        ) =~= responses_model(responses.deep_view()));
    }
    r
}

} // verus!
