use rest_router::request_spec::{Match, RequestSpec};
use rest_router::rest::{Error, RestRouter};

/// A specification that answers from a table: request `i` gets `answers[i]`.
struct Scripted {
    rank: usize,
    answers: Vec<Match>,
}

impl RequestSpec for Scripted {
    type Request = usize;

    fn rank_of(&self) -> usize {
        self.rank
    }

    fn outcome(&self, request: &usize) -> Match {
        self.answers[*request]
    }

    fn rank(&self) -> usize {
        self.rank_of()
    }

    fn matches(&self, request: &usize) -> Match {
        self.outcome(request)
    }
}

fn scripted(rank: usize, answers: Vec<Match>) -> Scripted {
    Scripted { rank, answers }
}

#[test]
fn all_no_is_not_found() {
    let router = RestRouter::from_iter(vec![
        (scripted(3, vec![Match::No]), 'a'),
        (scripted(2, vec![Match::No]), 'b'),
        (scripted(1, vec![Match::No]), 'c'),
    ]);
    assert_eq!(router.match_route(&0).unwrap_err(), Error::NotFound);
}

#[test]
fn two_method_mismatches_are_method_not_allowed() {
    let router = RestRouter::from_iter(vec![
        (scripted(1, vec![Match::MethodNotAllowed]), 'y'),
        (scripted(2, vec![Match::MethodNotAllowed]), 'x'),
        (scripted(3, vec![Match::No]), 'n'),
    ]);
    assert_eq!(router.match_route(&0).unwrap_err(), Error::MethodNotAllowed);
}

#[test]
fn first_yes_in_rank_order_wins() {
    let router = RestRouter::from_iter(vec![
        (scripted(1, vec![Match::Yes, Match::Yes, Match::No]), 'c'),
        (scripted(3, vec![Match::MethodNotAllowed, Match::Yes, Match::No]), 'a'),
        (scripted(2, vec![Match::Yes, Match::No, Match::MethodNotAllowed]), 'b'),
    ]);
    assert_eq!(router.match_route(&0).unwrap(), 'b');
    assert_eq!(router.match_route(&1).unwrap(), 'a');
    assert_eq!(router.match_route(&2).unwrap_err(), Error::MethodNotAllowed);
}
