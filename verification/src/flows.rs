//! Captured HTTP flows and the pure selection logic over them: picking out
//! the traffic for a set of watched hosts and its request bodies, and
//! resuming an incremental poll after a known flow.

use vstd::prelude::*;
use crate::text;

verus! {

/// A captured request, reduced to the fields the logic reads.
#[derive(Debug)]
pub struct Request {
    pub method: String,
    pub scheme: String,
    pub host: String,
    pub port: u16,
    pub path: String,
    pub headers: Vec<(String, String)>,
    pub content: Option<String>,
}

/// A captured response, reduced to the fields the logic reads.
#[derive(Debug)]
pub struct Response {
    pub status_code: u16,
    pub headers: Vec<(String, String)>,
    pub content: Option<String>,
}

/// One captured proxy flow.
#[derive(Debug)]
pub struct Flow {
    pub id: String,
    /// The flow kind label as the capture reports it.
    pub kind: String,
    pub request: Option<Request>,
    pub response: Option<Response>,
}

fn duplicate_headers(hs: &Vec<(String, String)>) -> (r: Vec<(String, String)>)
    ensures
        r@ == hs@,
{
    let mut r: Vec<(String, String)> = Vec::new();
    let n = hs.len();
    let mut i: usize = 0;
    proof {
        assert(r@ =~= hs@.take(0));
    }
    while i < n
        invariant
            i <= n,
            n == hs@.len(),
            r@ == hs@.take(i as int),
        decreases n - i,
    {
        let h = &hs[i];
        r.push((h.0.clone(), h.1.clone()));
        proof {
            assert(r@ =~= hs@.take(i + 1));
        }
        i += 1;
    }
    proof {
        assert(hs@.take(n as int) =~= hs@);
    }
    r
}

fn duplicate_opt_string(o: &Option<String>) -> (r: Option<String>)
    ensures
        r == *o,
{
    match o {
        Some(s) => Some(s.clone()),
        None => None,
    }
}

/// Field equality between requests; the header vectors hold equal pairs.
pub open spec fn req_like(a: Request, b: Request) -> bool {
    &&& a.method == b.method
    &&& a.scheme == b.scheme
    &&& a.host == b.host
    &&& a.port == b.port
    &&& a.path == b.path
    &&& a.headers@ == b.headers@
    &&& a.content == b.content
}

/// Field equality between responses; the header vectors hold equal pairs.
pub open spec fn resp_like(a: Response, b: Response) -> bool {
    &&& a.status_code == b.status_code
    &&& a.headers@ == b.headers@
    &&& a.content == b.content
}

/// Field equality between flows.
pub open spec fn flow_like(a: Flow, b: Flow) -> bool {
    &&& a.id == b.id
    &&& a.kind == b.kind
    &&& match (a.request, b.request) {
        (Some(x), Some(y)) => req_like(x, y),
        (None, None) => true,
        _ => false,
    }
    &&& match (a.response, b.response) {
        (Some(x), Some(y)) => resp_like(x, y),
        (None, None) => true,
        _ => false,
    }
}

impl Request {
    /// A field-for-field copy.
    pub fn duplicate(&self) -> (r: Request)
        ensures
            req_like(r, *self),
    {
        Request {
            method: self.method.clone(),
            scheme: self.scheme.clone(),
            host: self.host.clone(),
            port: self.port,
            path: self.path.clone(),
            headers: duplicate_headers(&self.headers),
            content: duplicate_opt_string(&self.content),
        }
    }
}

impl Response {
    /// A field-for-field copy.
    pub fn duplicate(&self) -> (r: Response)
        ensures
            resp_like(r, *self),
    {
        Response {
            status_code: self.status_code,
            headers: duplicate_headers(&self.headers),
            content: duplicate_opt_string(&self.content),
        }
    }
}

impl Flow {
    /// A field-for-field copy.
    pub fn duplicate(&self) -> (r: Flow)
        ensures
            flow_like(r, *self),
    {
        Flow {
            id: self.id.clone(),
            kind: self.kind.clone(),
            request: match &self.request {
                Some(req) => Some(req.duplicate()),
                None => None,
            },
            response: match &self.response {
                Some(resp) => Some(resp.duplicate()),
                None => None,
            },
        }
    }
}

/// Whether a host contains one of the watched fragments.
pub open spec fn host_listed(host: Seq<char>, fragments: Seq<String>) -> bool {
    exists|k: int| 0 <= k < fragments.len() && text::contains_sub(host, (#[trigger] fragments[k])@)
}

/// Decides `host_listed`.
pub fn host_matches(host: &str, fragments: &[String]) -> (r: bool)
    ensures
        r == host_listed(host@, fragments@),
{
    let n = fragments.len();
    let mut k: usize = 0;
    while k < n
        invariant
            k <= n,
            n == fragments@.len(),
            forall|j: int| 0 <= j < k ==> !text::contains_sub(host@, (#[trigger] fragments@[j])@),
        decreases n - k,
    {
        if text::str_contains(host, fragments[k].as_str()) {
            return true;
        }
        k += 1;
    }
    false
}

/// Whether a flow carries a request to a watched host.
pub open spec fn is_watched_flow(f: Flow, fragments: Seq<String>) -> bool {
    match f.request {
        Some(req) => host_listed(req.host@, fragments),
        None => false,
    }
}

pub open spec fn is_watched_flow_f(fragments: Seq<String>) -> spec_fn(Flow) -> bool {
    |f: Flow| is_watched_flow(f, fragments)
}

/// The body a flow contributes: its request content, if any.
pub open spec fn flow_body(f: Flow) -> Option<String> {
    match f.request {
        Some(req) => req.content,
        None => None,
    }
}

pub open spec fn flow_body_f() -> spec_fn(Flow) -> Option<String> {
    |f: Flow| flow_body(f)
}

/// The flows whose request goes to a watched host, in order, each copied
/// field for field.
#[verifier::loop_isolation(false)]
pub fn filter_flows_by_host(flows: &Vec<Flow>, fragments: &[String]) -> (r: Vec<Flow>)
    ensures
        r@.len() == flows@.filter(is_watched_flow_f(fragments@)).len(),
        forall|k: int|
            0 <= k < r@.len() ==> flow_like(
                #[trigger] r@[k],
                flows@.filter(is_watched_flow_f(fragments@))[k],
            ),
{
    let ghost pred = is_watched_flow_f(fragments@);
    let mut r: Vec<Flow> = Vec::new();
    let n = flows.len();
    let mut i: usize = 0;
    proof {
        reveal(Seq::filter);
        assert(flows@.take(0).filter(pred) =~= Seq::<Flow>::empty());
    }
    while i < n
        invariant
            i <= n,
            r@.len() == flows@.take(i as int).filter(pred).len(),
            forall|k: int|
                0 <= k < r@.len() ==> flow_like(
                    #[trigger] r@[k],
                    flows@.take(i as int).filter(pred)[k],
                ),
        decreases n - i,
    {
        let f = &flows[i];
        let sel = match &f.request {
            Some(req) => host_matches(req.host.as_str(), fragments),
            None => false,
        };
        proof {
            crate::store::lemma_filter_take_step(flows@, i as int, pred);
            assert(sel == is_watched_flow(flows@[i as int], fragments@));
        }
        if sel {
            r.push(f.duplicate());
        }
        i += 1;
    }
    proof {
        assert(flows@.take(n as int) =~= flows@);
    }
    r
}

/// The request bodies of the flows, in order, skipping flows without one.
pub fn extract_request_bodies(flows: &Vec<Flow>) -> (r: Vec<String>)
    ensures
        r@ == flows@.filter_map(flow_body_f()),
{
    let mut r: Vec<String> = Vec::new();
    let n = flows.len();
    let mut i: usize = 0;
    proof {
        assert(r@ =~= flows@.take(0).filter_map(flow_body_f()));
    }
    while i < n
        invariant
            i <= n,
            n == flows@.len(),
            r@ == flows@.take(i as int).filter_map(flow_body_f()),
        decreases n - i,
    {
        let f = &flows[i];
        proof {
            assert(flows@.take(i + 1).drop_last() =~= flows@.take(i as int));
            assert(flows@.take(i + 1).last() == flows@[i as int]);
        }
        match &f.request {
            Some(req) => {
                match &req.content {
                    Some(c) => {
                        r.push(c.clone());
                        proof {
                            assert(r@ =~= flows@.take(i + 1).filter_map(flow_body_f()));
                        }
                    },
                    None => {
                        proof {
                            assert(r@ =~= flows@.take(i + 1).filter_map(flow_body_f()));
                        }
                    },
                }
            },
            None => {
                proof {
                    assert(r@ =~= flows@.take(i + 1).filter_map(flow_body_f()));
                }
            },
        }
        i += 1;
    }
    proof {
        assert(flows@.take(n as int) =~= flows@);
    }
    r
}

/// The index of the first flow with the given id, or `fs.len()` if absent.
pub open spec fn flow_index(fs: Seq<Flow>, id: Seq<char>) -> int
    decreases fs.len(),
{
    if fs.len() == 0 {
        0
    } else if fs[0].id@ == id {
        0
    } else {
        1 + flow_index(fs.drop_first(), id)
    }
}

pub proof fn lemma_flow_index(fs: Seq<Flow>, id: Seq<char>)
    ensures
        0 <= flow_index(fs, id) <= fs.len(),
        forall|j: int| 0 <= j < flow_index(fs, id) ==> (#[trigger] fs[j]).id@ != id,
        flow_index(fs, id) < fs.len() ==> fs[flow_index(fs, id)].id@ == id,
    decreases fs.len(),
{
    if fs.len() > 0 && fs[0].id@ != id {
        lemma_flow_index(fs.drop_first(), id);
        assert forall|j: int| 0 <= j < flow_index(fs, id) implies (#[trigger] fs[j]).id@ != id by {
            if j > 0 {
                assert(fs.drop_first()[j - 1].id@ != id);
            }
        }
    }
}

proof fn lemma_flow_index_unique(fs: Seq<Flow>, id: Seq<char>, i: int)
    requires
        0 <= i <= fs.len(),
        forall|j: int| 0 <= j < i ==> (#[trigger] fs[j]).id@ != id,
        i < fs.len() ==> fs[i].id@ == id,
    ensures
        i == flow_index(fs, id),
{
    lemma_flow_index(fs, id);
    let f = flow_index(fs, id);
    if i < f {
        assert(fs[i].id@ != id);
    } else if f < i {
        assert(fs[f].id@ != id);
    }
}

fn find_flow(flows: &Vec<Flow>, since_id: &str) -> (r: usize)
    ensures
        r as int == flow_index(flows@, since_id@),
{
    let n = flows.len();
    let mut i: usize = 0;
    while i < n
        invariant
            i <= n,
            n == flows@.len(),
            forall|j: int| 0 <= j < i ==> (#[trigger] flows@[j]).id@ != since_id@,
        decreases n - i,
    {
        if text::str_eq(flows[i].id.as_str(), since_id) {
            proof {
                lemma_flow_index_unique(flows@, since_id@, i as int);
            }
            return i;
        }
        i += 1;
    }
    proof {
        lemma_flow_index_unique(flows@, since_id@, n as int);
    }
    n
}

/// The flows that came after the flow with the given id, each copied field
/// for field; all of them when that flow is no longer in the capture.
#[verifier::loop_isolation(false)]
pub fn flows_after(flows: &Vec<Flow>, since_id: &str) -> (r: Vec<Flow>)
    ensures
        ({
            let idx = flow_index(flows@, since_id@);
            let rest = if idx < flows@.len() {
                flows@.skip(idx + 1)
            } else {
                flows@
            };
            &&& r@.len() == rest.len()
            &&& forall|k: int| 0 <= k < r@.len() ==> flow_like(#[trigger] r@[k], rest[k])
        }),
{
    let n = flows.len();
    let i = find_flow(flows, since_id);
    proof {
        lemma_flow_index(flows@, since_id@);
    }
    let start = if i < n {
        i + 1
    } else {
        0
    };
    let mut r: Vec<Flow> = Vec::new();
    let mut k: usize = start;
    while k < n
        invariant
            start <= k <= n,
            r@.len() == k - start,
            forall|j: int| 0 <= j < r@.len() ==> flow_like(#[trigger] r@[j], flows@[start + j]),
        decreases n - k,
    {
        r.push(flows[k].duplicate());
        k += 1;
    }
    r
}

} // verus!
