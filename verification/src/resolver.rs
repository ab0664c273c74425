//! What the sinkhole does with one incoming query.

use vstd::prelude::*;
use vstd::string::*;

use crate::blocklist::Blocklist;
use crate::dns::{
    blocked_answer, build_blocked_answer, lemma_parsed_query_is_answerable, parse_outcome,
    try_parse_dns_request, ParseOutcome, Request,
};

verus! {

/// What to do with an incoming query.
pub enum QueryAction {
    /// The query could not be parsed; it gets no response.
    Drop,
    /// The queried name is blocked; send these bytes back.
    Answer { request: Request, response: Vec<u8> },
    /// The queried name is not blocked; forward the query upstream.
    Forward { request: Request },
}

/// Decides how to handle the query `bytes`: a query that does not parse is
/// dropped, a query for a blocked name is answered by the sinkhole, and any
/// other query is forwarded.
pub fn handle_query(blocklist: &Blocklist, bytes: &[u8]) -> (action: QueryAction)
    ensures
        match parse_outcome(bytes@) {
            ParseOutcome::Parsed { header, qname, qtype, qclass } => match action {
                QueryAction::Answer { request, response } => {
                    &&& blocklist.domains@.contains(qname)
                    &&& request.header == header && request.question.qname@ == qname
                    &&& request.question.qtype == qtype && request.question.qclass == qclass
                    &&& response@ == blocked_answer(bytes@, header.id, header.rd, qtype)
                },
                QueryAction::Forward { request } => {
                    &&& !blocklist.domains@.contains(qname)
                    &&& request.header == header && request.question.qname@ == qname
                    &&& request.question.qtype == qtype && request.question.qclass == qclass
                },
                QueryAction::Drop => false,
            },
            _ => action is Drop,
        },
{
    match try_parse_dns_request(bytes) {
        Some(Ok(request)) => {
            proof {
                lemma_parsed_query_is_answerable(bytes@);
            }
            if blocklist.check(request.question.qname.as_str()) {
                let response = build_blocked_answer(bytes, &request);
                QueryAction::Answer { request, response }
            } else {
                QueryAction::Forward { request }
            }
        },
        _ => QueryAction::Drop,
    }
}

/// The upstream resolvers, in the order they are tried.
pub open spec fn spec_upstream_servers() -> Seq<Seq<char>> {
    seq!["8.8.8.8:53"@, "1.1.1.1:53"@]
}

/// The address of the upstream resolver to try at attempt `index` (from 0),
/// or `None` once every resolver has been tried.
pub fn upstream_server(index: usize) -> (addr: Option<String>)
    ensures
        match addr {
            Some(a) => index < spec_upstream_servers().len() && a@ == spec_upstream_servers()[index as int],
            None => index >= spec_upstream_servers().len(),
        },
{
    if index == 0 {
        Some(String::from_str("8.8.8.8:53"))
    } else if index == 1 {
        Some(String::from_str("1.1.1.1:53"))
    } else {
        None
    }
}

} // verus!
