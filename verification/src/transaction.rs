//! Transactions and how they are read from CSV data.

pub mod parser;

use crate::decimal::parse_outcome;
use crate::decimal::Amount;
use crate::decimal::Decimal;
use crate::decimal::ParseAmountError;
use crate::pattern::pattern_matches;
use crate::pattern::Pattern;
use crate::timestamp::parse_time;
use crate::timestamp::refused_offset;
use crate::timestamp::refuses_offset;
use crate::timestamp::Timestamp;
use csv::ReaderBuilder;
use vstd::prelude::*;
use vstd::string::StringExecFns;

verus! {

/// What a transaction holds, as mathematical values.
pub struct TransactionView {
    pub amount: Decimal,
    pub account: Seq<char>,
    pub description: Seq<char>,
    pub time: Timestamp,
}

/// One financial event.
#[derive(Debug)]
pub struct Transaction {
    /// Amount of the transaction
    pub amount: Amount,
    /// Account the transaction applied to
    pub account: String,
    /// Description of the transaction
    pub description: String,
    /// Time of the transaction
    pub time: Timestamp,
}

impl View for Transaction {
    type V = TransactionView;

    open spec fn view(&self) -> TransactionView {
        TransactionView {
            amount: self.amount@,
            account: self.account@,
            description: self.description@,
            time: self.time,
        }
    }
}

impl Clone for Transaction {
    fn clone(&self) -> (r: Transaction)
        ensures
            r@ == self@,
    {
        Transaction {
            amount: self.amount.clone(),
            account: self.account.clone(),
            description: self.description.clone(),
            time: self.time,
        }
    }
}

/// The views of a list of transactions, in the same order.
pub open spec fn transaction_views(transactions: Seq<Transaction>) -> Seq<TransactionView> {
    transactions.map_values(|t: Transaction| t@)
}

/// The views of a list of borrowed transactions, in the same order.
pub open spec fn borrowed_views(transactions: Seq<&Transaction>) -> Seq<TransactionView> {
    transactions.map_values(|t: &Transaction| t@)
}

#[verifier::external_type_specification]
#[verifier::external_body]
pub struct ExCsvError(csv::Error);

/// Why transactions could not be read.
#[derive(Debug)]
pub enum TransactionError {
    /// The amount of a row is no decimal number.
    BigDecimal(ParseAmountError),
    /// The data is not well-formed CSV.
    Csv(csv::Error),
    /// The time of a row is in no format that is recognised.
    Dateparser(anyhow::Error),
    /// The time of a row, given here, ends in an offset from UTC of 24 hours or more.
    TimeZoneOffset(String),
    /// The path, given here, does not end in a file name.
    InvalidPathToFile(String),
    /// No amount in the row given: the header row, or the row of the transaction.
    MissingAmount(String),
    /// No account in the row given.
    MissingAccount(String),
    /// No description in the row given.
    MissingDescription(String),
    /// No time in the row given.
    MissingTime(String),
    /// No configuration is meant for the file at the path given.
    NoMatchingCsvConfig(String),
    /// Reading the file at the path given failed for the reason given.
    ParseFailed(String, Box<TransactionError>),
}

/// A [`TransactionError`] without what only the outside libraries know of it.
pub enum TransactionErrorView {
    BigDecimal,
    Csv,
    Dateparser,
    TimeZoneOffset(Seq<char>),
    InvalidPathToFile(Seq<char>),
    MissingAmount(Seq<char>),
    MissingAccount(Seq<char>),
    MissingDescription(Seq<char>),
    MissingTime(Seq<char>),
    NoMatchingCsvConfig(Seq<char>),
    ParseFailed(Seq<char>, Box<TransactionErrorView>),
}

/// The view of an error.
pub open spec fn error_view(error: TransactionError) -> TransactionErrorView
    decreases error,
{
    match error {
        TransactionError::BigDecimal(_) => TransactionErrorView::BigDecimal,
        TransactionError::Csv(_) => TransactionErrorView::Csv,
        TransactionError::Dateparser(_) => TransactionErrorView::Dateparser,
        TransactionError::TimeZoneOffset(text) => TransactionErrorView::TimeZoneOffset(text@),
        TransactionError::InvalidPathToFile(path) => TransactionErrorView::InvalidPathToFile(path@),
        TransactionError::MissingAmount(row) => TransactionErrorView::MissingAmount(row@),
        TransactionError::MissingAccount(row) => TransactionErrorView::MissingAccount(row@),
        TransactionError::MissingDescription(row) => TransactionErrorView::MissingDescription(row@),
        TransactionError::MissingTime(row) => TransactionErrorView::MissingTime(row@),
        TransactionError::NoMatchingCsvConfig(path) => TransactionErrorView::NoMatchingCsvConfig(path@),
        TransactionError::ParseFailed(path, cause) => TransactionErrorView::ParseFailed(
            path@,
            Box::new(error_view(*cause)),
        ),
    }
}

impl View for TransactionError {
    type V = TransactionErrorView;

    open spec fn view(&self) -> TransactionErrorView {
        error_view(*self)
    }
}

/// The view of the outcome of reading transactions.
pub open spec fn outcome_view(outcome: Result<Vec<Transaction>, TransactionError>) -> Result<
    Seq<TransactionView>,
    TransactionErrorView,
> {
    match outcome {
        Ok(transactions) => Ok(transaction_views(transactions@)),
        Err(error) => Err(error@),
    }
}

/// The fields of a row, as texts.
pub open spec fn row_view(row: Seq<String>) -> Seq<Seq<char>> {
    row.map_values(|field: String| field@)
}

/// The rows of a file, as texts.
pub open spec fn rows_view(rows: Seq<Vec<String>>) -> Seq<Seq<Seq<char>>> {
    rows.map_values(|row: Vec<String>| row_view(row@))
}

/// The fields of a row written one after the other, with nothing between them.
pub open spec fn concatenated(fields: Seq<Seq<char>>) -> Seq<char>
    decreases fields.len(),
{
    if fields.len() == 0 {
        Seq::empty()
    } else {
        concatenated(fields.drop_last()) + fields.last()
    }
}

/// The index of the first of `fields` that equals `name`.
pub open spec fn position(fields: Seq<Seq<char>>, name: Seq<char>) -> Option<int>
    decreases fields.len(),
{
    if fields.len() == 0 {
        None
    } else {
        match position(fields.drop_last(), name) {
            Some(i) => Some(i),
            None => if fields.last() == name {
                Some(fields.len() - 1)
            } else {
                None
            },
        }
    }
}

/// The first row of CSV data as the `csv` crate reads it, or `None` where it
/// reports an error. Data without any row has an empty first row.
pub uninterp spec fn csv_header(data: Seq<u8>, has_header: bool) -> Option<Seq<Seq<char>>>;

/// The records of CSV data that the `csv` crate reads before its first error,
/// and whether an error ended them. With a header the first row is no record.
pub uninterp spec fn csv_records(data: Seq<u8>, has_header: bool) -> (Seq<Seq<Seq<char>>>, bool);

/// `Reader::headers` of a reader that `ReaderBuilder` makes over the data with
/// the given `has_headers`: the fields of the first row are what
/// [`csv_header`] names, and an error comes exactly where it names nothing.
#[verifier::external_body]
fn read_header(data: &[u8], has_header: bool) -> (r: Result<Vec<String>, csv::Error>)
    ensures
        match r {
            Ok(header) => csv_header(data@, has_header) == Some(row_view(header@)),
            Err(_) => csv_header(data@, has_header) is None,
        },
{
    let mut reader = ReaderBuilder::new().has_headers(has_header).from_reader(data);
    Ok(reader.headers()?.iter().map(String::from).collect())
}

/// `Reader::records` of a reader that `ReaderBuilder` makes over the data with
/// the given `has_headers`, followed up to its end or its first error: the
/// records before that and whether there was an error are what
/// [`csv_records`] names.
#[verifier::external_body]
fn read_records(data: &[u8], has_header: bool) -> (r: (Vec<Vec<String>>, Option<csv::Error>))
    ensures
        (rows_view(r.0@), r.1 is Some) == csv_records(data@, has_header),
{
    let mut reader = ReaderBuilder::new().has_headers(has_header).from_reader(data);
    let mut rows: Vec<Vec<String>> = Vec::new();
    for record in reader.records() {
        match record {
            Ok(row) => rows.push(row.iter().map(String::from).collect()),
            Err(error) => return (rows, Some(error)),
        }
    }
    (rows, None)
}

/// The fields of `row` written one after the other.
fn concatenate(row: &Vec<String>) -> (r: String)
    ensures
        r@ == concatenated(row_view(row@)),
{
    let ghost fields = row_view(row@);
    let mut text = String::new();
    let mut i: usize = 0;
    assert(fields.take(0) =~= Seq::empty());
    while i < row.len()
        invariant
            i <= row@.len(),
            fields == row_view(row@),
            text@ == concatenated(fields.take(i as int)),
        decreases row@.len() - i,
    {
        proof {
            let next = fields.take(i + 1);
            assert(next.drop_last() =~= fields.take(i as int));
            assert(next.last() == row@[i as int]@);
        }
        text.append(row[i].as_str());
        i += 1;
    }
    assert(fields.take(i as int) =~= fields);
    text
}

/// The index of the first field of `row` that equals `name`.
fn find(row: &Vec<String>, name: &String) -> (r: Option<usize>)
    ensures
        match r {
            Some(index) => position(row_view(row@), name@) == Some(index as int),
            None => position(row_view(row@), name@) is None,
        },
{
    let ghost fields = row_view(row@);
    let mut i: usize = 0;
    assert(fields.take(0) =~= Seq::empty());
    while i < row.len()
        invariant
            i <= row@.len(),
            fields == row_view(row@),
            position(fields.take(i as int), name@) is None,
        decreases row@.len() - i,
    {
        proof {
            let next = fields.take(i + 1);
            assert(next.drop_last() =~= fields.take(i as int));
            assert(next.last() == row@[i as int]@);
        }
        if row[i] == *name {
            proof {
                assert(position(fields.take(i + 1), name@) == Some(i as int));
                lemma_position_extends(fields, i + 1, name@);
            }
            return Some(i);
        }
        i += 1;
    }
    assert(fields.take(i as int) =~= fields);
    None
}

/// Determine if a columns values should be decided by a header, index, or constant
#[derive(Debug, Clone)]
pub enum ColumnDeterminer {
    /// Column is a constant value
    Constant(String),
    /// Column is determined by a header
    Header(String),
    /// Column is determined by an index
    Index(usize),
}

/// A type to retrieve a columns value from a csv row
#[derive(Debug)]
pub enum ConstantOrIndex<'a> {
    Constant(&'a str),
    Index(usize),
}

/// A [`ConstantOrIndex`] as mathematical values.
pub enum ConstantOrIndexView {
    Constant(Seq<char>),
    Index(int),
}

impl<'a> View for ConstantOrIndex<'a> {
    type V = ConstantOrIndexView;

    open spec fn view(&self) -> ConstantOrIndexView {
        match self {
            ConstantOrIndex::Constant(constant) => ConstantOrIndexView::Constant(constant@),
            ConstantOrIndex::Index(index) => ConstantOrIndexView::Index(*index as int),
        }
    }
}

impl ConstantOrIndexView {
    /// The value of the column in `row`, or the whole row where it has no such
    /// field.
    pub open spec fn value(self, row: Seq<Seq<char>>) -> Result<Seq<char>, Seq<char>> {
        match self {
            ConstantOrIndexView::Constant(constant) => Ok(constant),
            ConstantOrIndexView::Index(index) => if 0 <= index < row.len() {
                Ok(row[index])
            } else {
                Err(concatenated(row))
            },
        }
    }
}

impl ColumnDeterminer {
    /// Where the column is found in a file with the header row `headers`, or
    /// the whole header row where it lacks the header that is asked for.
    pub open spec fn resolve(&self, headers: Seq<Seq<char>>) -> Result<ConstantOrIndexView, Seq<char>> {
        match self {
            ColumnDeterminer::Constant(constant) => Ok(ConstantOrIndexView::Constant(constant@)),
            ColumnDeterminer::Header(header) => match position(headers, header@) {
                Some(index) => Ok(ConstantOrIndexView::Index(index)),
                None => Err(concatenated(headers)),
            },
            ColumnDeterminer::Index(index) => Ok(ConstantOrIndexView::Index(*index as int)),
        }
    }

    /// Finds the column in the header row: a constant and an index stand for
    /// themselves, a header for the index of the first field that equals it.
    pub fn constant_or_index<'a>(&'a self, headers: &Vec<String>) -> (r: Result<
        ConstantOrIndex<'a>,
        String,
    >)
        ensures
            match r {
                Ok(found) => self.resolve(row_view(headers@)) == Ok::<_, Seq<char>>(found@),
                Err(row) => self.resolve(row_view(headers@)) == Err::<ConstantOrIndexView, _>(row@),
            },
    {
        match self {
            ColumnDeterminer::Constant(constant) => Ok(ConstantOrIndex::Constant(constant.as_str())),
            ColumnDeterminer::Header(header) => match find(headers, header) {
                Some(index) => Ok(ConstantOrIndex::Index(index)),
                None => Err(concatenate(headers)),
            },
            ColumnDeterminer::Index(index) => Ok(ConstantOrIndex::Index(*index)),
        }
    }
}

/// A position found among the first `n` fields is the position among all.
pub proof fn lemma_position_extends(fields: Seq<Seq<char>>, n: int, name: Seq<char>)
    requires
        0 <= n <= fields.len(),
        position(fields.take(n), name) is Some,
    ensures
        position(fields, name) == position(fields.take(n), name),
    decreases fields.len(),
{
    if n == fields.len() {
        assert(fields.take(n) =~= fields);
    } else {
        assert(fields.drop_last().take(n) =~= fields.take(n));
        lemma_position_extends(fields.drop_last(), n, name);
    }
}

impl<'a> ConstantOrIndex<'a> {
    /// The value of the column in `row`, or the whole row where it has no such
    /// field.
    pub fn value(&self, row: &'a Vec<String>) -> (r: Result<&'a str, String>)
        ensures
            match r {
                Ok(value) => self@.value(row_view(row@)) == Ok::<_, Seq<char>>(value@),
                Err(whole) => self@.value(row_view(row@)) == Err::<Seq<char>, _>(whole@),
            },
    {
        match self {
            ConstantOrIndex::Constant(constant) => Ok(*constant),
            ConstantOrIndex::Index(index) => {
                if *index < row.len() {
                    Ok(row[*index].as_str())
                } else {
                    Err(concatenate(row))
                }
            },
        }
    }
}

/// Where the four fields of a transaction are found in the rows of a file.
#[derive(Debug)]
pub struct Columns<'a> {
    pub amount: ConstantOrIndex<'a>,
    pub account: ConstantOrIndex<'a>,
    pub description: ConstantOrIndex<'a>,
    pub time: ConstantOrIndex<'a>,
}

/// [`Columns`] as mathematical values.
pub struct ColumnsView {
    pub amount: ConstantOrIndexView,
    pub account: ConstantOrIndexView,
    pub description: ConstantOrIndexView,
    pub time: ConstantOrIndexView,
}

impl<'a> View for Columns<'a> {
    type V = ColumnsView;

    open spec fn view(&self) -> ColumnsView {
        ColumnsView {
            amount: self.amount@,
            account: self.account@,
            description: self.description@,
            time: self.time@,
        }
    }
}

/// The texts of the four fields of a transaction.
pub struct FieldsView {
    pub amount: Seq<char>,
    pub account: Seq<char>,
    pub description: Seq<char>,
    pub time: Seq<char>,
}

impl ColumnsView {
    /// The texts of the four fields in `row`, or the first of them that the
    /// row lacks, asked for in the order amount, account, description, time.
    pub open spec fn fields(self, row: Seq<Seq<char>>) -> Result<FieldsView, TransactionErrorView> {
        match self.amount.value(row) {
            Err(whole) => Err(TransactionErrorView::MissingAmount(whole)),
            Ok(amount) => match self.account.value(row) {
                Err(whole) => Err(TransactionErrorView::MissingAccount(whole)),
                Ok(account) => match self.description.value(row) {
                    Err(whole) => Err(TransactionErrorView::MissingDescription(whole)),
                    Ok(description) => match self.time.value(row) {
                        Err(whole) => Err(TransactionErrorView::MissingTime(whole)),
                        Ok(time) => Ok(FieldsView { amount, account, description, time }),
                    },
                },
            },
        }
    }

    /// The transaction that `row` gives where reading its time gave `time`: a
    /// field that is missing comes first, then an amount that is no number,
    /// then a time that is refused for its offset, then a time that was not
    /// recognised.
    pub open spec fn transaction(self, row: Seq<Seq<char>>, time: Option<Timestamp>) -> Result<
        TransactionView,
        TransactionErrorView,
    > {
        match self.fields(row) {
            Err(error) => Err(error),
            Ok(fields) => match parse_outcome(fields.amount) {
                None => Err(TransactionErrorView::BigDecimal),
                Some(amount) => if refused_offset(fields.time) {
                    Err(TransactionErrorView::TimeZoneOffset(fields.time))
                } else {
                    assembled(amount, fields.account, fields.description, time)
                },
            },
        }
    }

    /// The transactions that `rows` give in order, where reading the time of
    /// row `i` gave `times[i]`, or the error of the first row that gives none.
    pub open spec fn transactions(
        self,
        rows: Seq<Seq<Seq<char>>>,
        times: Seq<Option<Timestamp>>,
    ) -> Result<Seq<TransactionView>, TransactionErrorView>
        decreases rows.len(),
    {
        if rows.len() == 0 {
            Ok(Seq::empty())
        } else {
            match self.transactions(rows.drop_last(), times) {
                Err(error) => Err(error),
                Ok(before) => match self.transaction(rows.last(), times[rows.len() - 1]) {
                    Err(error) => Err(error),
                    Ok(transaction) => Ok(before.push(transaction)),
                },
            }
        }
    }
}

/// The transaction made of its amount and of the texts of its account and
/// its description, where reading the time gave `time`.
pub open spec fn assembled(
    amount: Decimal,
    account: Seq<char>,
    description: Seq<char>,
    time: Option<Timestamp>,
) -> Result<TransactionView, TransactionErrorView> {
    match time {
        None => Err(TransactionErrorView::Dateparser),
        Some(time) => Ok(TransactionView { amount, account, description, time }),
    }
}

/// The view of the outcome of reading one transaction.
pub open spec fn transaction_outcome_view(outcome: Result<Transaction, TransactionError>) -> Result<
    TransactionView,
    TransactionErrorView,
> {
    match outcome {
        Ok(transaction) => Ok(transaction@),
        Err(error) => Err(error@),
    }
}

/// What reading a time gave, without the reason of a failure.
pub open spec fn time_view(time: Result<Timestamp, anyhow::Error>) -> Option<Timestamp> {
    match time {
        Ok(time) => Some(time),
        Err(_) => None,
    }
}

/// The outcome does not depend on the times of rows that are not there.
pub proof fn lemma_transactions_times(
    columns: ColumnsView,
    rows: Seq<Seq<Seq<char>>>,
    times: Seq<Option<Timestamp>>,
    others: Seq<Option<Timestamp>>,
)
    requires
        forall|i: int| 0 <= i < rows.len() ==> times[i] == others[i],
    ensures
        columns.transactions(rows, times) == columns.transactions(rows, others),
    decreases rows.len(),
{
    if rows.len() > 0 {
        lemma_transactions_times(columns, rows.drop_last(), times, others);
    }
}

/// An error among the first `n` rows is the error of all rows.
pub proof fn lemma_transactions_error(
    columns: ColumnsView,
    rows: Seq<Seq<Seq<char>>>,
    times: Seq<Option<Timestamp>>,
    n: int,
)
    requires
        0 <= n <= rows.len(),
        columns.transactions(rows.take(n), times) is Err,
    ensures
        columns.transactions(rows, times) == columns.transactions(rows.take(n), times),
    decreases rows.len(),
{
    if n == rows.len() {
        assert(rows.take(n) =~= rows);
    } else {
        assert(rows.drop_last().take(n) =~= rows.take(n));
        lemma_transactions_error(columns, rows.drop_last(), times, n);
    }
}

impl Transaction {
    /// Makes a transaction of its amount, of the texts of its account and its
    /// description, and of what reading its time has given.
    pub fn from_fields(
        amount: Amount,
        account: &str,
        description: &str,
        time: Result<Timestamp, anyhow::Error>,
    ) -> (r: Result<Transaction, TransactionError>)
        ensures
            transaction_outcome_view(r) == assembled(
                amount@,
                account@,
                description@,
                time_view(time),
            ),
    {
        match time {
            Ok(time) => Ok(
                Transaction {
                    amount,
                    account: account.to_owned(),
                    description: description.to_owned(),
                    time,
                },
            ),
            Err(error) => Err(TransactionError::Dateparser(error)),
        }
    }

    /// Create a new list of transactions from a csv buffer with a header row
    /// that names the columns `amount`, `account`, `description` and `time`
    pub fn from_csv_buffer(data: &[u8]) -> (r: Result<Vec<Transaction>, TransactionError>)
        ensures
            exists|config: TransactionParserCsv, times: Seq<Option<Timestamp>>|
                config.is_default() && outcome_view(r) == #[trigger] config.parse_data_spec(
                    data@,
                    times,
                ),
    {
        TransactionParserCsv::default().parse_csv(data)
    }
}

impl<'a> Columns<'a> {
    /// Reads one row.
    pub fn read_row(&self, row: &Vec<String>) -> (r: Result<Transaction, TransactionError>)
        ensures
            exists|time: Option<Timestamp>|
                transaction_outcome_view(r) == #[trigger] self@.transaction(row_view(row@), time),
    {
        let ghost fields = row_view(row@);
        let amount = match self.amount.value(row) {
            Ok(amount) => amount,
            Err(whole) => {
                assert(self@.transaction(fields, None) is Err);
                return Err(TransactionError::MissingAmount(whole));
            },
        };
        let account = match self.account.value(row) {
            Ok(account) => account,
            Err(whole) => {
                assert(self@.transaction(fields, None) is Err);
                return Err(TransactionError::MissingAccount(whole));
            },
        };
        let description = match self.description.value(row) {
            Ok(description) => description,
            Err(whole) => {
                assert(self@.transaction(fields, None) is Err);
                return Err(TransactionError::MissingDescription(whole));
            },
        };
        let time = match self.time.value(row) {
            Ok(time) => time,
            Err(whole) => {
                assert(self@.transaction(fields, None) is Err);
                return Err(TransactionError::MissingTime(whole));
            },
        };
        let amount = match Amount::parse(amount) {
            Ok(amount) => amount,
            Err(error) => {
                assert(self@.transaction(fields, None) is Err);
                return Err(TransactionError::BigDecimal(error));
            },
        };
        if refuses_offset(time) {
            assert(self@.transaction(fields, None) is Err);
            return Err(TransactionError::TimeZoneOffset(time.to_owned()));
        }
        let time = parse_time(time);
        let r = Transaction::from_fields(amount, account, description, time);
        assert(transaction_outcome_view(r) == self@.transaction(fields, time_view(time)));
        r
    }

    /// Reads the rows in order and stops at the first that gives an error.
    pub fn read_rows(&self, rows: &Vec<Vec<String>>) -> (r: Result<
        Vec<Transaction>,
        TransactionError,
    >)
        ensures
            exists|times: Seq<Option<Timestamp>>|
                outcome_view(r) == #[trigger] self@.transactions(rows_view(rows@), times),
    {
        let ghost all = rows_view(rows@);
        let ghost mut times: Seq<Option<Timestamp>> = Seq::empty();
        let mut transactions: Vec<Transaction> = Vec::new();
        let mut i: usize = 0;
        assert(all.take(0) =~= Seq::empty());
        assert(transaction_views(transactions@) =~= Seq::empty());
        while i < rows.len()
            invariant
                i <= rows@.len(),
                all == rows_view(rows@),
                times.len() == i,
                self@.transactions(all.take(i as int), times) == Ok::<_, TransactionErrorView>(
                    transaction_views(transactions@),
                ),
            decreases rows@.len() - i,
        {
            let outcome = self.read_row(&rows[i]);
            proof {
                let time = choose|time: Option<Timestamp>|
                    transaction_outcome_view(outcome) == #[trigger] self@.transaction(
                        row_view(rows@[i as int]@),
                        time,
                    );
                let next = all.take(i + 1);
                assert(next.drop_last() =~= all.take(i as int));
                assert(next.last() == row_view(rows@[i as int]@));
                lemma_transactions_times(self@, all.take(i as int), times, times.push(time));
                times = times.push(time);
                assert(self@.transactions(next, times) == match transaction_outcome_view(outcome) {
                    Ok(transaction) => Ok(transaction_views(transactions@).push(transaction)),
                    Err(error) => Err(error),
                });
            }
            match outcome {
                Ok(transaction) => {
                    assert(transaction_views(transactions@.push(transaction))
                        =~= transaction_views(transactions@).push(transaction@));
                    transactions.push(transaction);
                },
                Err(error) => {
                    proof {
                        lemma_transactions_error(self@, all, times, i + 1);
                    }
                    return Err(error);
                },
            }
            i += 1;
        }
        assert(all.take(i as int) =~= all);
        Ok(transactions)
    }
}

/// Configuration for parsing transactions from csv files
#[derive(Debug)]
pub struct TransactionParserCsv {
    /// Regex to check if a file should be parsed with this config
    pub filename_regex: Pattern,
    /// Does this file have a header?
    pub has_header: bool,
    /// Where the amount is found
    pub amount_column: ColumnDeterminer,
    /// Where the account is found
    pub account_column: ColumnDeterminer,
    /// Where the description is found
    pub description_column: ColumnDeterminer,
    /// Where the time is found
    pub time_column: ColumnDeterminer,
}

/// Whether `column` is the header `name`.
pub open spec fn is_header(column: ColumnDeterminer, name: Seq<char>) -> bool {
    column matches ColumnDeterminer::Header(header) && header@ == name
}

impl TransactionParserCsv {
    /// The configuration reads every file, expects a header row and finds
    /// each field under the header of its name.
    pub open spec fn is_default(&self) -> bool {
        &&& self.filename_regex@ == ".*"@
        &&& self.has_header
        &&& is_header(self.amount_column, "amount"@)
        &&& is_header(self.account_column, "account"@)
        &&& is_header(self.description_column, "description"@)
        &&& is_header(self.time_column, "time"@)
    }

    /// Where the four fields are found in a file with the header row
    /// `headers`, or the first of them that it lacks, asked for in the order
    /// amount, account, description, time.
    pub open spec fn columns(&self, headers: Seq<Seq<char>>) -> Result<
        ColumnsView,
        TransactionErrorView,
    > {
        match self.amount_column.resolve(headers) {
            Err(whole) => Err(TransactionErrorView::MissingAmount(whole)),
            Ok(amount) => match self.account_column.resolve(headers) {
                Err(whole) => Err(TransactionErrorView::MissingAccount(whole)),
                Ok(account) => match self.description_column.resolve(headers) {
                    Err(whole) => Err(TransactionErrorView::MissingDescription(whole)),
                    Ok(description) => match self.time_column.resolve(headers) {
                        Err(whole) => Err(TransactionErrorView::MissingTime(whole)),
                        Ok(time) => Ok(ColumnsView { amount, account, description, time }),
                    },
                },
            },
        }
    }

    /// The outcome of reading a file whose first row is `header` and whose
    /// records are `records`, where reading the time of record `i` gave
    /// `times[i]`: a first row that cannot be read fails, a file without any
    /// field in its first row holds no transaction, and an error of the
    /// records comes after the transactions of the records before it.
    pub open spec fn parse_spec(
        &self,
        header: Option<Seq<Seq<char>>>,
        records: (Seq<Seq<Seq<char>>>, bool),
        times: Seq<Option<Timestamp>>,
    ) -> Result<Seq<TransactionView>, TransactionErrorView> {
        match header {
            None => Err(TransactionErrorView::Csv),
            Some(header) => if header.len() == 0 {
                Ok(Seq::empty())
            } else {
                match self.columns(header) {
                    Err(error) => Err(error),
                    Ok(columns) => match columns.transactions(records.0, times) {
                        Err(error) => Err(error),
                        Ok(transactions) => if records.1 {
                            Err(TransactionErrorView::Csv)
                        } else {
                            Ok(transactions)
                        },
                    },
                }
            },
        }
    }

    /// The outcome of reading the CSV data `data`, where reading the time of
    /// record `i` gave `times[i]`.
    pub open spec fn parse_data_spec(&self, data: Seq<u8>, times: Seq<Option<Timestamp>>) -> Result<
        Seq<TransactionView>,
        TransactionErrorView,
    > {
        self.parse_spec(
            csv_header(data, self.has_header),
            csv_records(data, self.has_header),
            times,
        )
    }

    /// The column of the amount where none is configured.
    pub fn default_amount_column() -> (r: ColumnDeterminer)
        ensures
            is_header(r, "amount"@),
    {
        ColumnDeterminer::Header("amount".to_owned())
    }

    /// The column of the account where none is configured.
    pub fn default_account_column() -> (r: ColumnDeterminer)
        ensures
            is_header(r, "account"@),
    {
        ColumnDeterminer::Header("account".to_owned())
    }

    /// The column of the description where none is configured.
    pub fn default_description_column() -> (r: ColumnDeterminer)
        ensures
            is_header(r, "description"@),
    {
        ColumnDeterminer::Header("description".to_owned())
    }

    /// The column of the time where none is configured.
    pub fn default_time_column() -> (r: ColumnDeterminer)
        ensures
            is_header(r, "time"@),
    {
        ColumnDeterminer::Header("time".to_owned())
    }

    /// Finds the four columns in the header row.
    pub fn find_columns<'a>(&'a self, headers: &Vec<String>) -> (r: Result<
        Columns<'a>,
        TransactionError,
    >)
        ensures
            match r {
                Ok(columns) => self.columns(row_view(headers@)) == Ok::<_, TransactionErrorView>(
                    columns@,
                ),
                Err(error) => self.columns(row_view(headers@)) == Err::<ColumnsView, _>(error@),
            },
    {
        let amount = match self.amount_column.constant_or_index(headers) {
            Ok(amount) => amount,
            Err(whole) => {
                return Err(TransactionError::MissingAmount(whole));
            },
        };
        let account = match self.account_column.constant_or_index(headers) {
            Ok(account) => account,
            Err(whole) => {
                return Err(TransactionError::MissingAccount(whole));
            },
        };
        let description = match self.description_column.constant_or_index(headers) {
            Ok(description) => description,
            Err(whole) => {
                return Err(TransactionError::MissingDescription(whole));
            },
        };
        let time = match self.time_column.constant_or_index(headers) {
            Ok(time) => time,
            Err(whole) => {
                return Err(TransactionError::MissingTime(whole));
            },
        };
        Ok(Columns { amount, account, description, time })
    }

    /// Parse the transactions of CSV data
    pub fn parse_csv(&self, data: &[u8]) -> (r: Result<Vec<Transaction>, TransactionError>)
        ensures
            exists|times: Seq<Option<Timestamp>>|
                outcome_view(r) == #[trigger] self.parse_data_spec(data@, times),
    {
        let ghost none: Seq<Option<Timestamp>> = Seq::empty();
        // Read the headers and if the file is empty return an empty list
        let headers = match read_header(data, self.has_header) {
            Ok(headers) => headers,
            Err(error) => {
                assert(self.parse_data_spec(data@, none) == Err::<Seq<TransactionView>, _>(
                    TransactionErrorView::Csv,
                ));
                return Err(TransactionError::Csv(error));
            },
        };
        if headers.len() == 0 {
            let transactions: Vec<Transaction> = Vec::new();
            assert(transaction_views(transactions@) =~= Seq::empty());
            assert(self.parse_data_spec(data@, none) == Ok::<_, TransactionErrorView>(
                Seq::<TransactionView>::empty(),
            ));
            return Ok(transactions);
        }
        // Find indexes of headers
        let columns = match self.find_columns(&headers) {
            Ok(columns) => columns,
            Err(error) => {
                assert(self.parse_data_spec(data@, none) == Err::<Seq<TransactionView>, _>(error@));
                return Err(error);
            },
        };
        // Convert each row to a `Transaction` and add it to the list of transactions
        let (rows, failure) = read_records(data, self.has_header);
        let outcome = columns.read_rows(&rows);
        let ghost times = choose|times: Seq<Option<Timestamp>>|
            outcome_view(outcome) == #[trigger] columns@.transactions(rows_view(rows@), times);
        match outcome {
            Ok(transactions) => match failure {
                Some(error) => {
                    assert(self.parse_data_spec(data@, times) == Err::<Seq<TransactionView>, _>(
                        TransactionErrorView::Csv,
                    ));
                    Err(TransactionError::Csv(error))
                },
                None => {
                    assert(self.parse_data_spec(data@, times) == outcome_view(Ok(transactions)));
                    Ok(transactions)
                },
            },
            Err(error) => {
                assert(self.parse_data_spec(data@, times) == Err::<Seq<TransactionView>, _>(error@));
                Err(error)
            },
        }
    }
}

impl Default for TransactionParserCsv {
    fn default() -> (r: TransactionParserCsv)
        ensures
            r.is_default(),
    {
        TransactionParserCsv {
            filename_regex: Pattern::any(),
            has_header: true,
            amount_column: TransactionParserCsv::default_amount_column(),
            account_column: TransactionParserCsv::default_account_column(),
            description_column: TransactionParserCsv::default_description_column(),
            time_column: TransactionParserCsv::default_time_column(),
        }
    }
}

/// The index of the first of `configs` that is meant for the file name `name`.
pub open spec fn matching_config(configs: Seq<TransactionParserCsv>, name: Seq<char>) -> Option<int>
    decreases configs.len(),
{
    if configs.len() == 0 {
        None
    } else {
        match matching_config(configs.drop_last(), name) {
            Some(i) => Some(i),
            None => if pattern_matches(configs.last().filename_regex@, name) {
                Some(configs.len() - 1)
            } else {
                None
            },
        }
    }
}

/// A configuration found among the first `n` is the one found among all.
pub proof fn lemma_matching_config_extends(
    configs: Seq<TransactionParserCsv>,
    n: int,
    name: Seq<char>,
)
    requires
        0 <= n <= configs.len(),
        matching_config(configs.take(n), name) is Some,
    ensures
        matching_config(configs, name) == matching_config(configs.take(n), name),
    decreases configs.len(),
{
    if n == configs.len() {
        assert(configs.take(n) =~= configs);
    } else {
        assert(configs.drop_last().take(n) =~= configs.take(n));
        lemma_matching_config_extends(configs.drop_last(), n, name);
    }
}

/// The view of a file name that may be missing.
pub open spec fn name_view(name: Option<&str>) -> Option<Seq<char>> {
    match name {
        Some(name) => Some(name@),
        None => None,
    }
}

/// A CSV file that has been read: where it was found and what it holds.
#[derive(Debug)]
pub struct CsvFile {
    /// The path of the file
    pub path: String,
    /// The last component of the path, where it has one
    pub file_name: Option<String>,
    /// The bytes of the file
    pub data: Vec<u8>,
}

impl CsvFile {
    /// The file name, where the path has one.
    pub open spec fn name(&self) -> Option<Seq<char>> {
        match self.file_name {
            Some(name) => Some(name@),
            None => None,
        }
    }
}

/// Configuration for parsing transactions
#[derive(Debug)]
pub struct TransactionParser {
    pub csv: Vec<TransactionParserCsv>,
}

impl TransactionParser {
    /// The index of the configuration for the file at `path` with the name
    /// `file_name`: the first whose pattern matches the name.
    pub open spec fn config_spec(&self, path: Seq<char>, file_name: Option<Seq<char>>) -> Result<
        int,
        TransactionErrorView,
    > {
        match file_name {
            None => Err(TransactionErrorView::InvalidPathToFile(path)),
            Some(name) => match matching_config(self.csv@, name) {
                None => Err(TransactionErrorView::NoMatchingCsvConfig(path)),
                Some(i) => Ok(i),
            },
        }
    }

    /// The outcome of reading the file at `path` with the name `file_name`
    /// and the bytes `data`, where reading the time of record `i` gave
    /// `times[i]`. Every failure is wrapped with the path.
    pub open spec fn parse_csv_spec(
        &self,
        path: Seq<char>,
        file_name: Option<Seq<char>>,
        data: Seq<u8>,
        times: Seq<Option<Timestamp>>,
    ) -> Result<Seq<TransactionView>, TransactionErrorView> {
        let outcome = match self.config_spec(path, file_name) {
            Err(error) => Err(error),
            Ok(i) => self.csv@[i].parse_data_spec(data, times),
        };
        match outcome {
            Ok(transactions) => Ok(transactions),
            Err(error) => Err(TransactionErrorView::ParseFailed(path, Box::new(error))),
        }
    }

    /// The outcome of reading `files` in order, where reading the time of
    /// record `i` of file `k` gave `times[k][i]`: the transactions of all
    /// files, in file-then-row order, or the failure of the first file that
    /// has one.
    pub open spec fn parse_csvs_spec(
        &self,
        files: Seq<CsvFile>,
        times: Seq<Seq<Option<Timestamp>>>,
    ) -> Result<Seq<TransactionView>, TransactionErrorView>
        decreases files.len(),
    {
        if files.len() == 0 {
            Ok(Seq::empty())
        } else {
            match self.parse_csvs_spec(files.drop_last(), times) {
                Err(error) => Err(error),
                Ok(before) => {
                    let file = files.last();
                    match self.parse_csv_spec(
                        file.path@,
                        file.name(),
                        file.data@,
                        times[files.len() - 1],
                    ) {
                        Err(error) => Err(error),
                        Ok(transactions) => Ok(before + transactions),
                    }
                },
            }
        }
    }

    /// Find the csv parsing config that matches the name of a file: the first
    /// whose pattern matches it. `file_name` is the last component of `path`.
    pub fn csv_config(&self, path: &str, file_name: Option<&str>) -> (r: Result<
        &TransactionParserCsv,
        TransactionError,
    >)
        ensures
            match r {
                Ok(config) => exists|i: int|
                    self.config_spec(path@, name_view(file_name)) == Ok::<_, TransactionErrorView>(i)
                        && 0 <= i < self.csv@.len() && *config == #[trigger] self.csv@[i],
                Err(error) => self.config_spec(path@, name_view(file_name)) == Err::<int, _>(error@),
            },
    {
        let name = match file_name {
            Some(name) => name,
            None => {
                return Err(TransactionError::InvalidPathToFile(path.to_owned()));
            },
        };
        let mut i: usize = 0;
        assert(self.csv@.take(0) =~= Seq::empty());
        while i < self.csv.len()
            invariant
                i <= self.csv@.len(),
                name_view(file_name) == Some(name@),
                matching_config(self.csv@.take(i as int), name@) is None,
            decreases self.csv@.len() - i,
        {
            proof {
                let next = self.csv@.take(i + 1);
                assert(next.drop_last() =~= self.csv@.take(i as int));
                assert(next.last() == self.csv@[i as int]);
            }
            if self.csv[i].filename_regex.is_match(name) {
                proof {
                    assert(matching_config(self.csv@.take(i + 1), name@) == Some(i as int));
                    lemma_matching_config_extends(self.csv@, i + 1, name@);
                }
                return Ok(&self.csv[i]);
            }
            i += 1;
        }
        assert(self.csv@.take(i as int) =~= self.csv@);
        Err(TransactionError::NoMatchingCsvConfig(path.to_owned()))
    }

    /// Parse transactions from the bytes of a CSV file
    pub fn parse_csv(&self, path: &str, file_name: Option<&str>, data: &[u8]) -> (r: Result<
        Vec<Transaction>,
        TransactionError,
    >)
        ensures
            exists|times: Seq<Option<Timestamp>>|
                outcome_view(r) == #[trigger] self.parse_csv_spec(
                    path@,
                    name_view(file_name),
                    data@,
                    times,
                ),
    {
        let ghost none: Seq<Option<Timestamp>> = Seq::empty();
        let config = match self.csv_config(path, file_name) {
            Ok(config) => config,
            Err(error) => {
                assert(self.parse_csv_spec(path@, name_view(file_name), data@, none) == Err::<
                    Seq<TransactionView>,
                    _,
                >(TransactionErrorView::ParseFailed(path@, Box::new(error@))));
                return Err(TransactionError::ParseFailed(path.to_owned(), Box::new(error)));
            },
        };
        let outcome = config.parse_csv(data);
        let ghost times = choose|times: Seq<Option<Timestamp>>|
            outcome_view(outcome) == #[trigger] config.parse_data_spec(data@, times);
        match outcome {
            Ok(transactions) => {
                assert(self.parse_csv_spec(path@, name_view(file_name), data@, times)
                    == outcome_view(Ok(transactions)));
                Ok(transactions)
            },
            Err(error) => {
                assert(self.parse_csv_spec(path@, name_view(file_name), data@, times) == Err::<
                    Seq<TransactionView>,
                    _,
                >(TransactionErrorView::ParseFailed(path@, Box::new(error@))));
                Err(TransactionError::ParseFailed(path.to_owned(), Box::new(error)))
            },
        }
    }

    /// Parse transactions from the bytes of CSV files, in order, and stop at
    /// the first file that cannot be read
    pub fn parse_csvs(&self, files: &Vec<CsvFile>) -> (r: Result<Vec<Transaction>, TransactionError>)
        ensures
            exists|times: Seq<Seq<Option<Timestamp>>>|
                outcome_view(r) == #[trigger] self.parse_csvs_spec(files@, times),
    {
        let ghost mut times: Seq<Seq<Option<Timestamp>>> = Seq::empty();
        let mut transactions: Vec<Transaction> = Vec::new();
        let mut i: usize = 0;
        assert(files@.take(0) =~= Seq::empty());
        assert(transaction_views(transactions@) =~= Seq::empty());
        while i < files.len()
            invariant
                i <= files@.len(),
                times.len() == i,
                self.parse_csvs_spec(files@.take(i as int), times) == Ok::<_, TransactionErrorView>(
                    transaction_views(transactions@),
                ),
            decreases files@.len() - i,
        {
            let file = &files[i];
            let outcome = match &file.file_name {
                Some(name) => self.parse_csv(
                    file.path.as_str(),
                    Some(name.as_str()),
                    file.data.as_slice(),
                ),
                None => self.parse_csv(file.path.as_str(), None, file.data.as_slice()),
            };
            proof {
                let name = file.name();
                let time = choose|time: Seq<Option<Timestamp>>|
                    outcome_view(outcome) == #[trigger] self.parse_csv_spec(
                        file.path@,
                        name,
                        file.data@,
                        time,
                    );
                let next = files@.take(i + 1);
                assert(next.drop_last() =~= files@.take(i as int));
                assert(next.last() == files@[i as int]);
                self.lemma_parse_csvs_times(files@.take(i as int), times, times.push(time));
                times = times.push(time);
                assert(self.parse_csvs_spec(next, times) == match outcome_view(outcome) {
                    Ok(found) => Ok(transaction_views(transactions@) + found),
                    Err(error) => Err(error),
                });
            }
            match outcome {
                Ok(mut found) => {
                    assert(transaction_views(transactions@ + found@) =~= transaction_views(
                        transactions@,
                    ) + transaction_views(found@));
                    transactions.append(&mut found);
                },
                Err(error) => {
                    proof {
                        self.lemma_parse_csvs_error(files@, times, i + 1);
                    }
                    return Err(error);
                },
            }
            i += 1;
        }
        assert(files@.take(i as int) =~= files@);
        Ok(transactions)
    }

    /// The outcome does not depend on the times of files that are not there.
    pub proof fn lemma_parse_csvs_times(
        &self,
        files: Seq<CsvFile>,
        times: Seq<Seq<Option<Timestamp>>>,
        others: Seq<Seq<Option<Timestamp>>>,
    )
        requires
            forall|i: int| 0 <= i < files.len() ==> times[i] == others[i],
        ensures
            self.parse_csvs_spec(files, times) == self.parse_csvs_spec(files, others),
        decreases files.len(),
    {
        if files.len() > 0 {
            self.lemma_parse_csvs_times(files.drop_last(), times, others);
        }
    }

    /// A failure among the first `n` files is the failure of all files.
    pub proof fn lemma_parse_csvs_error(
        &self,
        files: Seq<CsvFile>,
        times: Seq<Seq<Option<Timestamp>>>,
        n: int,
    )
        requires
            0 <= n <= files.len(),
            self.parse_csvs_spec(files.take(n), times) is Err,
        ensures
            self.parse_csvs_spec(files, times) == self.parse_csvs_spec(files.take(n), times),
        decreases files.len(),
    {
        if n == files.len() {
            assert(files.take(n) =~= files);
        } else {
            assert(files.drop_last().take(n) =~= files.take(n));
            self.lemma_parse_csvs_error(files.drop_last(), times, n);
        }
    }
}

} // verus!
