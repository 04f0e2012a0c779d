//! The matching engine: the one owner of a book, which numbers incoming orders
//! and applies one command at a time.

use vstd::prelude::*;

use crate::book;
use crate::book::OrderBook;
use crate::laws;
use crate::order::{Fill, Order, Side};
use crate::priority::BookState;
use crate::snapshot::OrderBookSnapshot;

verus! {

/// What a client asks for when it places an order.
#[derive(Debug, Clone, Copy, PartialEq, Eq, Structural)]
pub struct OrderRequest {
    pub side: Side,
    pub price: u64,
    pub qty: u64,
}

/// Why the engine turns an order down.
#[derive(Debug, Clone, Copy, PartialEq, Eq, Structural)]
pub enum SubmitError {
    /// The order asks for nothing.
    QtyNotPositive,
}

impl SubmitError {
    /// The text that the client gets.
    pub open spec fn text(self) -> Seq<char> {
        match self {
            SubmitError::QtyNotPositive => "qty must be positive"@,
        }
    }

    /// The text that the client gets.
    pub fn message(&self) -> (message: String)
        ensures
            message@ == self.text(),
    {
        match self {
            SubmitError::QtyNotPositive => "qty must be positive".to_owned(),
        }
    }
}

/// An order that the engine took, and the fills it led to.
#[derive(Debug)]
pub struct Accepted {
    pub id: u64,
    pub fills: Vec<Fill>,
}

/// The state of an engine.
pub struct EngineState {
    pub book: BookState,
    pub next_id: u64,
}

impl EngineState {
    /// An engine that has taken no order yet.
    pub open spec fn initial() -> EngineState {
        EngineState { book: BookState::empty(), next_id: 1 }
    }

    /// The order that a request becomes.
    pub open spec fn order(self, request: OrderRequest) -> Order {
        Order {
            id: self.next_id,
            side: request.side,
            price: request.price,
            qty: request.qty,
            remaining_qty: request.qty,
        }
    }

    /// The state once `request` has been dealt with.
    pub open spec fn submitted(self, request: OrderRequest) -> EngineState {
        if request.qty == 0 {
            self
        } else {
            EngineState {
                book: self.book.submitted(self.order(request)),
                next_id: if self.next_id < u64::MAX {
                    (self.next_id + 1) as u64
                } else {
                    u64::MAX
                },
            }
        }
    }

    /// Whether `answer` is what the client of `request` gets: an error exactly
    /// if the request asks for nothing, else the number of its order and its fills.
    pub open spec fn answers(
        self,
        request: OrderRequest,
        answer: Result<Accepted, SubmitError>,
    ) -> bool {
        match answer {
            Ok(accepted) => {
                &&& request.qty > 0
                &&& accepted.id == self.next_id
                &&& accepted.fills@ == self.book.fills(self.order(request))
            },
            Err(error) => request.qty == 0 && error == SubmitError::QtyNotPositive,
        }
    }
}

/// The one owner of a book.
#[derive(Debug)]
pub struct MatchingEngine {
    book: OrderBook,
    next_id: u64,
}

impl View for MatchingEngine {
    type V = EngineState;

    closed spec fn view(&self) -> EngineState {
        EngineState { book: self.book@, next_id: self.next_id }
    }
}

impl MatchingEngine {
    /// An engine with an empty book. Orders are numbered from 1.
    pub fn new() -> (engine: Self)
        ensures
            engine@ == EngineState::initial(),
            engine@.book.valid(),
    {
        MatchingEngine { book: OrderBook::new(), next_id: 1 }
    }

    /// Places an order. The book is in price-time priority and not crossed, before
    /// and after.
    pub fn submit(&mut self, request: OrderRequest) -> (answer: Result<Accepted, SubmitError>)
        ensures
            final(self)@ == old(self)@.submitted(request),
            old(self)@.answers(request, answer),
            old(self)@.book.valid(),
            final(self)@.book.valid(),
    {
        proof {
            use_type_invariant(&self.book);
            book::lemma_book_valid(self.book);
        }
        if request.qty == 0 {
            return Err(SubmitError::QtyNotPositive);
        }
        let id: u64 = self.next_id;
        self.next_id = self.next_id.saturating_add(1);
        let order = Order::new(id, request.side, request.price, request.qty);
        let fills = self.book.submit(order);
        Ok(Accepted { id, fills })
    }

    /// Shows the book.
    pub fn snapshot(&self) -> (snapshot: OrderBookSnapshot)
        ensures
            snapshot.is_of(self@.book),
            self@.book.valid(),
    {
        self.book.snapshot_levels()
    }
}

/// The state that a history of requests leads to.
pub open spec fn engine_after(requests: Seq<OrderRequest>) -> EngineState
    decreases requests.len(),
{
    if requests.len() == 0 {
        EngineState::initial()
    } else {
        engine_after(requests.drop_last()).submitted(requests.last())
    }
}

/// The orders that a history of requests places, in the order of the requests;
/// a request that is turned down places none.
pub open spec fn orders_placed(requests: Seq<OrderRequest>) -> Seq<Order>
    decreases requests.len(),
{
    if requests.len() == 0 {
        Seq::empty()
    } else if requests.last().qty == 0 {
        orders_placed(requests.drop_last())
    } else {
        orders_placed(requests.drop_last()).push(
            engine_after(requests.drop_last()).order(requests.last()),
        )
    }
}

/// All fills that a history of requests leads to, in the order they happened.
pub open spec fn fills_sent(requests: Seq<OrderRequest>) -> Seq<Fill>
    decreases requests.len(),
{
    if requests.len() == 0 {
        Seq::empty()
    } else {
        let before = engine_after(requests.drop_last());
        let request = requests.last();
        fills_sent(requests.drop_last()) + if request.qty == 0 {
            Seq::empty()
        } else {
            before.book.fills(before.order(request))
        }
    }
}

/// Requests are applied one after the other: the engine's book and its fills are
/// those that the placed orders lead to, submitted in that order.
pub proof fn requests_are_applied_in_order(requests: Seq<OrderRequest>)
    ensures
        engine_after(requests).book == laws::book_after(orders_placed(requests)),
        fills_sent(requests) == laws::fills_of(orders_placed(requests)),
    decreases requests.len(),
{
    if requests.len() > 0 {
        let before = requests.drop_last();
        requests_are_applied_in_order(before);
        if requests.last().qty > 0 {
            let order = engine_after(before).order(requests.last());
            assert(orders_placed(requests).drop_last() =~= orders_placed(before));
            assert(orders_placed(requests).last() == order);
        } else {
            assert(fills_sent(requests) =~= fills_sent(before));
        }
    }
}

proof fn lemma_next_id(requests: Seq<OrderRequest>)
    ensures
        engine_after(requests).next_id as int == if orders_placed(requests).len() < u64::MAX {
            orders_placed(requests).len() as int + 1
        } else {
            u64::MAX as int
        },
    decreases requests.len(),
{
    if requests.len() > 0 {
        lemma_next_id(requests.drop_last());
    }
}

/// Placed orders are numbered 1, 2, 3 and so on, up to the largest number, which
/// all further orders get.
pub proof fn orders_are_numbered_in_turn(requests: Seq<OrderRequest>, n: int)
    requires
        0 <= n < orders_placed(requests).len(),
    ensures
        orders_placed(requests)[n].id as int == if n < u64::MAX {
            n + 1
        } else {
            u64::MAX as int
        },
    decreases requests.len(),
{
    let before = requests.drop_last();
    if requests.last().qty == 0 || n < orders_placed(before).len() {
        orders_are_numbered_in_turn(before, n);
    } else {
        lemma_next_id(before);
    }
}

proof fn lemma_placed_whole(requests: Seq<OrderRequest>, n: int)
    requires
        0 <= n < orders_placed(requests).len(),
    ensures
        orders_placed(requests)[n].qty == orders_placed(requests)[n].remaining_qty,
    decreases requests.len(),
{
    let before = requests.drop_last();
    if requests.last().qty == 0 || n < orders_placed(before).len() {
        lemma_placed_whole(before, n);
    }
}

/// No quantity is matched twice: as long as numbers do not run out, all fills of
/// a history together trade no more of an order than it was placed with.
pub proof fn no_placed_order_is_overfilled(requests: Seq<OrderRequest>, n: int)
    requires
        0 <= n < orders_placed(requests).len() <= u64::MAX,
    ensures
        laws::filled_for(fills_sent(requests), orders_placed(requests)[n].id)
            <= orders_placed(requests)[n].qty,
{
    let orders = orders_placed(requests);
    requests_are_applied_in_order(requests);
    lemma_placed_whole(requests, n);
    orders_are_numbered_in_turn(requests, n);
    assert forall|i: int| 0 <= i < orders.len() && i != n implies (#[trigger] orders[i]).id
        != orders[n].id by {
        orders_are_numbered_in_turn(requests, i);
    }
    laws::no_order_is_overfilled(orders, n);
}

/// A fresh engine has an empty book and gives out the number 1 first.
pub proof fn engines_start_empty(engine: MatchingEngine)
    requires
        call_ensures(MatchingEngine::new, (), engine),
    ensures
        engine@.book.bids.len() == 0,
        engine@.book.asks.len() == 0,
        engine@.next_id == 1,
        engine_after(Seq::empty()) == engine@,
{
}

/// A request is carried out as it was asked: one for nothing is an error and changes
/// nothing, any other becomes an order with the next number and with the side, price
/// and whole quantity of the request, is answered with that number and the fills of
/// that order, and leaves the book with that order submitted.
pub proof fn requests_are_carried_out_as_asked(
    state: EngineState,
    request: OrderRequest,
    answer: Result<Accepted, SubmitError>,
)
    requires
        state.answers(request, answer),
    ensures
        request.qty == 0 ==> answer is Err && state.submitted(request) == state,
        request.qty > 0 ==> {
            let order = Order {
                id: state.next_id,
                side: request.side,
                price: request.price,
                qty: request.qty,
                remaining_qty: request.qty,
            };
            &&& answer matches Ok(accepted)
            &&& accepted.id == state.next_id
            &&& accepted.fills@ == state.book.fills(order)
            &&& state.submitted(request).book == state.book.submitted(order)
            &&& state.next_id < u64::MAX ==> state.submitted(request).next_id == state.next_id + 1
            &&& state.next_id == u64::MAX ==> state.submitted(request).next_id == u64::MAX
        },
{
}

/// The orders that a history places are its requests for a positive quantity, all of
/// them and in their order, each with the side, price and whole quantity that was
/// asked for, numbered 1, 2, 3 and so on.
pub proof fn orders_are_placed_as_asked(requests: Seq<OrderRequest>)
    ensures
        ({
            let asked = requests.filter(|request: OrderRequest| request.qty > 0);
            let placed = orders_placed(requests);
            &&& placed.len() == asked.len()
            &&& forall|n: int|
                0 <= n < placed.len() ==> {
                    &&& (#[trigger] placed[n]).side == asked[n].side
                    &&& placed[n].price == asked[n].price
                    &&& placed[n].qty == asked[n].qty
                    &&& placed[n].remaining_qty == asked[n].qty
                    &&& n < u64::MAX ==> placed[n].id == n + 1
                    &&& n >= u64::MAX ==> placed[n].id == u64::MAX
                }
        }),
    decreases requests.len(),
{
    reveal(Seq::filter);
    let positive = |request: OrderRequest| request.qty > 0;
    if requests.len() > 0 {
        let before = requests.drop_last();
        let placed = orders_placed(requests);
        orders_are_placed_as_asked(before);
        assert forall|n: int| 0 <= n < placed.len() implies {
            let asked = requests.filter(positive);
            &&& (#[trigger] placed[n]).side == asked[n].side
            &&& placed[n].price == asked[n].price
            &&& placed[n].qty == asked[n].qty
            &&& placed[n].remaining_qty == asked[n].qty
            &&& n < u64::MAX ==> placed[n].id == n + 1
            &&& n >= u64::MAX ==> placed[n].id == u64::MAX
        } by {
            orders_are_numbered_in_turn(requests, n);
            if n < orders_placed(before).len() {
                assert(placed[n] == orders_placed(before)[n]);
            }
        }
    }
}

/// Every order is accounted for: as long as numbers do not run out, what the fills of
/// a history trade for the order of the `n`-th request for a positive quantity and
/// what rests of it are together the quantity that was asked for.
pub proof fn requested_quantities_are_traded_or_rest(requests: Seq<OrderRequest>, n: int)
    requires
        0 <= n < requests.filter(|request: OrderRequest| request.qty > 0).len() <= u64::MAX,
    ensures
        laws::filled_for(fills_sent(requests), (n + 1) as u64) + laws::held_for(
            engine_after(requests).book,
            (n + 1) as u64,
        ) == requests.filter(|request: OrderRequest| request.qty > 0)[n].qty,
{
    let orders = orders_placed(requests);
    requests_are_applied_in_order(requests);
    orders_are_placed_as_asked(requests);
    assert(orders[n].id == n + 1);
    assert forall|i: int| 0 <= i < orders.len() && i != n implies (#[trigger] orders[i]).id
        != orders[n].id by {}
    laws::history_accounts_for_each_order(orders, orders[n].id);
    laws::lemma_open_for_unique(orders, n);
}

} // verus!
