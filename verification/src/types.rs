//! Domain types of the exchange: assets, markets, balances, orders, the
//! order book, trades, ledger intents and commands, each with the
//! mathematical model that the contracts speak of.
use vstd::prelude::*;

verus! {

/// Side of an order.
#[derive(Clone, Copy, PartialEq, Eq, Structural, Debug)]
pub enum OrderType {
    Buy,
    Sell,
}

/// Life-cycle state of an order.
#[derive(Clone, Copy, PartialEq, Eq, Structural, Debug)]
pub enum OrderStatus {
    Active,
    PartiallyFilled,
    Filled,
    Cancelled,
}

/// Whether a market accepts new orders.
#[derive(Clone, Copy, PartialEq, Eq, Structural, Debug)]
pub enum MarketStatus {
    Trading,
    Halted,
}

/// Whether an asset is usable.
#[derive(Clone, Copy, PartialEq, Eq, Structural, Debug)]
pub enum AssetStatus {
    Active,
    Disabled,
}

/// Kind of a ledger movement.
#[derive(Clone, Copy, PartialEq, Eq, Structural, Debug)]
pub enum LedgerEntryType {
    Deposit,
    Lock,
    Unlock,
    Trade,
}

/// What a ledger movement refers to.
#[derive(Clone, Copy, PartialEq, Eq, Structural, Debug)]
pub enum ReferenceType {
    Order,
    Trade,
    Command,
}

/// Side of the book a price level sits on.
#[derive(Clone, Copy, PartialEq, Eq, Structural, Debug)]
pub enum BookSide {
    Bid,
    Ask,
}

/// A tradable asset. Identifiers are 128-bit UUID values.
#[derive(Debug)]
pub struct Asset {
    pub id: u128,
    pub symbol: String,
    pub name: String,
    pub decimals: i32,
    pub status: AssetStatus,
    pub created_at: i64,
}

pub struct AssetModel {
    pub id: u128,
    pub symbol: Seq<char>,
    pub name: Seq<char>,
    pub decimals: i32,
    pub status: AssetStatus,
    pub created_at: i64,
}

impl View for Asset {
    type V = AssetModel;

    open spec fn view(&self) -> AssetModel {
        AssetModel {
            id: self.id,
            symbol: self.symbol@,
            name: self.name@,
            decimals: self.decimals,
            status: self.status,
            created_at: self.created_at,
        }
    }
}

/// A market pairing a base asset with a quote asset, with its trading rules.
#[derive(Debug)]
pub struct Market {
    pub id: u128,
    pub symbol: String,
    pub name: String,
    pub base_asset_id: u128,
    pub quote_asset_id: u128,
    pub status: MarketStatus,
    pub price_tick_size: i64,
    pub quantity_step_size: i64,
    pub min_order_quantity: i64,
    pub min_order_notional: i64,
    pub created_at: i64,
}

pub struct MarketModel {
    pub id: u128,
    pub symbol: Seq<char>,
    pub name: Seq<char>,
    pub base_asset_id: u128,
    pub quote_asset_id: u128,
    pub status: MarketStatus,
    pub price_tick_size: i64,
    pub quantity_step_size: i64,
    pub min_order_quantity: i64,
    pub min_order_notional: i64,
    pub created_at: i64,
}

impl View for Market {
    type V = MarketModel;

    open spec fn view(&self) -> MarketModel {
        MarketModel {
            id: self.id,
            symbol: self.symbol@,
            name: self.name@,
            base_asset_id: self.base_asset_id,
            quote_asset_id: self.quote_asset_id,
            status: self.status,
            price_tick_size: self.price_tick_size,
            quantity_step_size: self.quantity_step_size,
            min_order_quantity: self.min_order_quantity,
            min_order_notional: self.min_order_notional,
            created_at: self.created_at,
        }
    }
}

impl Market {
    /// A copy of this market with the same contents.
    pub fn duplicate(&self) -> (m: Market)
        ensures
            m@ == self@,
    {
        Market {
            id: self.id,
            symbol: self.symbol.clone(),
            name: self.name.clone(),
            base_asset_id: self.base_asset_id,
            quote_asset_id: self.quote_asset_id,
            status: self.status,
            price_tick_size: self.price_tick_size,
            quantity_step_size: self.quantity_step_size,
            min_order_quantity: self.min_order_quantity,
            min_order_notional: self.min_order_notional,
            created_at: self.created_at,
        }
    }
}

/// The balance of one user in one asset; `updated_at` is in microseconds.
#[derive(Clone, Copy, PartialEq, Eq, Structural, Debug)]
pub struct Balance {
    pub user_id: u128,
    pub asset_id: u128,
    pub available: i64,
    pub locked: i64,
    pub updated_at: i64,
}

/// An order as the engine keeps it. Times are in microseconds.
#[derive(Debug)]
pub struct Order {
    pub id: u64,
    pub user_id: u128,
    pub market_symbol: String,
    pub order_type: OrderType,
    pub price: i64,
    pub quantity: i64,
    pub filled_quantity: i64,
    pub status: OrderStatus,
    pub created_at: i64,
    pub filled_at: Option<i64>,
    pub cancelled_at: Option<i64>,
}

pub struct OrderModel {
    pub id: u64,
    pub user_id: u128,
    pub market_symbol: Seq<char>,
    pub order_type: OrderType,
    pub price: i64,
    pub quantity: i64,
    pub filled_quantity: i64,
    pub status: OrderStatus,
    pub created_at: i64,
    pub filled_at: Option<i64>,
    pub cancelled_at: Option<i64>,
}

impl View for Order {
    type V = OrderModel;

    open spec fn view(&self) -> OrderModel {
        OrderModel {
            id: self.id,
            user_id: self.user_id,
            market_symbol: self.market_symbol@,
            order_type: self.order_type,
            price: self.price,
            quantity: self.quantity,
            filled_quantity: self.filled_quantity,
            status: self.status,
            created_at: self.created_at,
            filled_at: self.filled_at,
            cancelled_at: self.cancelled_at,
        }
    }
}

impl OrderModel {
    /// Quantity not yet filled.
    pub open spec fn remaining(self) -> int {
        self.quantity - self.filled_quantity
    }

    /// An order is open while it is active or partially filled.
    pub open spec fn is_open(self) -> bool {
        self.status == OrderStatus::Active || self.status == OrderStatus::PartiallyFilled
    }
}

/// The view of an open order that is handed to its owner.
#[derive(Debug)]
pub struct OpenOrderView {
    pub id: u64,
    pub market_symbol: String,
    pub order_type: OrderType,
    pub price: i64,
    pub quantity: i64,
    pub filled_quantity: i64,
    pub status: OrderStatus,
    pub created_at: i64,
}

pub struct OpenOrderModel {
    pub id: u64,
    pub market_symbol: Seq<char>,
    pub order_type: OrderType,
    pub price: i64,
    pub quantity: i64,
    pub filled_quantity: i64,
    pub status: OrderStatus,
    pub created_at: i64,
}

impl View for OpenOrderView {
    type V = OpenOrderModel;

    open spec fn view(&self) -> OpenOrderModel {
        OpenOrderModel {
            id: self.id,
            market_symbol: self.market_symbol@,
            order_type: self.order_type,
            price: self.price,
            quantity: self.quantity,
            filled_quantity: self.filled_quantity,
            status: self.status,
            created_at: self.created_at,
        }
    }
}

/// The open-order view of an order model.
pub open spec fn open_view_of(o: OrderModel) -> OpenOrderModel {
    OpenOrderModel {
        id: o.id,
        market_symbol: o.market_symbol,
        order_type: o.order_type,
        price: o.price,
        quantity: o.quantity,
        filled_quantity: o.filled_quantity,
        status: o.status,
        created_at: o.created_at,
    }
}

impl Order {
    /// A fresh, unfilled, active order.
    pub fn new(
        id: u64,
        user_id: u128,
        market_symbol: String,
        order_type: OrderType,
        price: i64,
        quantity: i64,
        created_at: i64,
    ) -> (o: Order)
        ensures
            o@ == (OrderModel {
                id,
                user_id,
                market_symbol: market_symbol@,
                order_type,
                price,
                quantity,
                filled_quantity: 0,
                status: OrderStatus::Active,
                created_at,
                filled_at: None,
                cancelled_at: None,
            }),
    {
        Order {
            id,
            user_id,
            market_symbol,
            order_type,
            price,
            quantity,
            filled_quantity: 0,
            status: OrderStatus::Active,
            created_at,
            filled_at: None,
            cancelled_at: None,
        }
    }

    /// Quantity not yet filled.
    pub fn remaining(&self) -> (r: i64)
        requires
            i64::MIN <= self@.remaining() <= i64::MAX,
        ensures
            r == self@.remaining(),
    {
        self.quantity - self.filled_quantity
    }

    /// Quantity not yet filled, or `None` where it leaves the `i64` range.
    pub fn checked_remaining(&self) -> (r: Option<i64>)
        ensures
            r matches Some(v) ==> v == self@.remaining(),
            r is None <==> !(i64::MIN <= self@.remaining() <= i64::MAX),
    {
        let v: i128 = self.quantity as i128 - self.filled_quantity as i128;
        if v < i64::MIN as i128 || v > i64::MAX as i128 {
            None
        } else {
            Some(v as i64)
        }
    }

    /// A copy of this order with the same contents.
    pub fn duplicate(&self) -> (o: Order)
        ensures
            o@ == self@,
    {
        Order {
            id: self.id,
            user_id: self.user_id,
            market_symbol: self.market_symbol.clone(),
            order_type: self.order_type,
            price: self.price,
            quantity: self.quantity,
            filled_quantity: self.filled_quantity,
            status: self.status,
            created_at: self.created_at,
            filled_at: self.filled_at,
            cancelled_at: self.cancelled_at,
        }
    }

    /// The view of this order handed to its owner.
    pub fn to_open_view(&self) -> (v: OpenOrderView)
        ensures
            v@ == open_view_of(self@),
    {
        OpenOrderView {
            id: self.id,
            market_symbol: self.market_symbol.clone(),
            order_type: self.order_type,
            price: self.price,
            quantity: self.quantity,
            filled_quantity: self.filled_quantity,
            status: self.status,
            created_at: self.created_at,
        }
    }
}

/// A resting order in a price level queue.
#[derive(Clone, Copy, PartialEq, Eq, Structural, Debug)]
pub struct BookOrder {
    pub user_id: u128,
    pub order_id: u64,
    pub quantity: i64,
}

/// All resting orders at one price, oldest first.
#[derive(Debug)]
pub struct BookLevel {
    pub price: i64,
    pub orders: Vec<BookOrder>,
}

pub struct LevelModel {
    pub price: i64,
    pub orders: Seq<BookOrder>,
}

impl View for BookLevel {
    type V = LevelModel;

    open spec fn view(&self) -> LevelModel {
        LevelModel { price: self.price, orders: self.orders@ }
    }
}

/// The two sides of a book. Each side holds its levels in strictly
/// increasing price order, so the best ask is the first ask level and the
/// best bid is the last bid level.
#[derive(Debug)]
pub struct OrderBook {
    pub bids: Vec<BookLevel>,
    pub asks: Vec<BookLevel>,
}

pub struct BookModel {
    pub bids: Seq<LevelModel>,
    pub asks: Seq<LevelModel>,
}

pub open spec fn levels_view(levels: Seq<BookLevel>) -> Seq<LevelModel> {
    levels.map_values(|l: BookLevel| l@)
}

impl View for OrderBook {
    type V = BookModel;

    open spec fn view(&self) -> BookModel {
        BookModel { bids: levels_view(self.bids@), asks: levels_view(self.asks@) }
    }
}

impl OrderBook {
    /// An empty book.
    pub fn new() -> (b: OrderBook)
        ensures
            b@.bids.len() == 0,
            b@.asks.len() == 0,
    {
        OrderBook { bids: Vec::new(), asks: Vec::new() }
    }
}

/// The book of one market.
#[derive(Debug)]
pub struct MarketBook {
    pub market_symbol: String,
    pub book: OrderBook,
}

pub struct MarketBookModel {
    pub symbol: Seq<char>,
    pub book: BookModel,
}

impl View for MarketBook {
    type V = MarketBookModel;

    open spec fn view(&self) -> MarketBookModel {
        MarketBookModel { symbol: self.market_symbol@, book: self.book@ }
    }
}

/// An executed trade.
#[derive(Clone, Copy, PartialEq, Eq, Structural, Debug)]
pub struct Trade {
    pub id: u128,
    pub market_id: u128,
    pub maker_order_id: u64,
    pub taker_order_id: u64,
    pub price: i64,
    pub quantity: i64,
    pub buyer_user_id: u128,
    pub seller_user_id: u128,
    pub created_at: i64,
}

/// A balance movement that the engine asks to be written to the ledger,
/// with the balance it leaves behind.
#[derive(Clone, Copy, PartialEq, Eq, Structural, Debug)]
pub struct LedgerIntent {
    pub command_id: u128,
    pub sequence: i32,
    pub user_id: u128,
    pub asset_id: u128,
    pub entry_type: LedgerEntryType,
    pub available_delta: i64,
    pub locked_delta: i64,
    pub available_after: i64,
    pub locked_after: i64,
    pub reference_id: Option<u128>,
    pub reference_type: Option<ReferenceType>,
}

/// A command sent to the engine.
#[derive(Clone, Debug)]
pub enum Command {
    CreateOrder {
        command_id: u128,
        user_id: u128,
        market_symbol: String,
        order_type: OrderType,
        price: i64,
        quantity: i64,
    },
    CancelOrder { command_id: u128, user_id: u128, order_id: String },
    CreditBalance { command_id: u128, user_id: u128, asset_id: u128, amount: i64 },
}

pub enum CommandModel {
    CreateOrder {
        command_id: u128,
        user_id: u128,
        market_symbol: Seq<char>,
        order_type: OrderType,
        price: i64,
        quantity: i64,
    },
    CancelOrder { command_id: u128, user_id: u128, order_id: Seq<char> },
    CreditBalance { command_id: u128, user_id: u128, asset_id: u128, amount: i64 },
}

impl View for Command {
    type V = CommandModel;

    open spec fn view(&self) -> CommandModel {
        match self {
            Command::CreateOrder { command_id, user_id, market_symbol, order_type, price, quantity } =>
                CommandModel::CreateOrder {
                command_id: *command_id,
                user_id: *user_id,
                market_symbol: market_symbol@,
                order_type: *order_type,
                price: *price,
                quantity: *quantity,
            },
            Command::CancelOrder { command_id, user_id, order_id } => CommandModel::CancelOrder {
                command_id: *command_id,
                user_id: *user_id,
                order_id: order_id@,
            },
            Command::CreditBalance { command_id, user_id, asset_id, amount } =>
                CommandModel::CreditBalance {
                command_id: *command_id,
                user_id: *user_id,
                asset_id: *asset_id,
                amount: *amount,
            },
        }
    }
}

impl CommandModel {
    pub open spec fn command_id(self) -> u128 {
        match self {
            CommandModel::CreateOrder { command_id, .. } => command_id,
            CommandModel::CancelOrder { command_id, .. } => command_id,
            CommandModel::CreditBalance { command_id, .. } => command_id,
        }
    }
}

impl Command {
    /// The identifier that makes a command idempotent.
    pub fn command_id(&self) -> (id: u128)
        ensures
            id == self@.command_id(),
    {
        match self {
            Command::CreateOrder { command_id, .. } => *command_id,
            Command::CancelOrder { command_id, .. } => *command_id,
            Command::CreditBalance { command_id, .. } => *command_id,
        }
    }
}

} // verus!
