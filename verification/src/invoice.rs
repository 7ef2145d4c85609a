use vstd::prelude::*;

use crate::menu_item::{MenuItem, MenuItemModel};
use crate::utilities::{
    all_digits, decimal, digits_value, is_ascii_digit, parse_u32, push_decimal, spec_parse_u32,
    string_push,
};

verus! {

broadcast use vstd::string::group_string_axioms;

/// The invoice being edited: its settings, its menu, and the menu entry being edited.
///
/// `total_bits` holds the bit pattern of the stored `f32` total, which the logic
/// carries along unchanged.
#[derive(Debug)]
pub struct Invoice {
    pub desc: String,
    pub menu_items: Vec<MenuItem>,
    pub next_id: u32,
    pub letterhead: String,
    pub phone_number: String,
    pub invoice_title: String,
    pub event_date: String,
    pub price_per_person: String,
    pub num_people: u32,
    pub tax_percentage: String,
    pub total_bits: u32,
    pub editing_item: Option<u32>,
}

/// What an [`Invoice`] holds, as mathematical values.
#[verifier::ext_equal]
pub struct InvoiceModel {
    pub desc: Seq<char>,
    pub menu_items: Seq<MenuItemModel>,
    pub next_id: u32,
    pub letterhead: Seq<char>,
    pub phone_number: Seq<char>,
    pub invoice_title: Seq<char>,
    pub event_date: Seq<char>,
    pub price_per_person: Seq<char>,
    pub num_people: u32,
    pub tax_percentage: Seq<char>,
    pub total_bits: u32,
    pub editing_item: Option<u32>,
}

pub open spec fn item_views(items: Seq<MenuItem>) -> Seq<MenuItemModel> {
    items.map_values(|it: MenuItem| it@)
}

impl View for Invoice {
    type V = InvoiceModel;

    open spec fn view(&self) -> InvoiceModel {
        InvoiceModel {
            desc: self.desc@,
            menu_items: item_views(self.menu_items@),
            next_id: self.next_id,
            letterhead: self.letterhead@,
            phone_number: self.phone_number@,
            invoice_title: self.invoice_title@,
            event_date: self.event_date@,
            price_per_person: self.price_per_person@,
            num_people: self.num_people,
            tax_percentage: self.tax_percentage@,
            total_bits: self.total_bits,
            editing_item: self.editing_item,
        }
    }
}

/// An event of the invoice editor. `P` is the type of file paths.
#[derive(Debug, Clone)]
pub enum Message<P> {
    UpdateDesc(String),
    UpdateRate(String),
    UpdateTaxRate(String),
    UpdatePeopleCount(String),
    UpdatePhoneNumber(String),
    UpdateEventDate(String),
    AddMenuItem,
    DeleteMenuItem(u32),
    EditMenuItem(u32),
    CancelEdit,
    UpdateMenuItem(u32),
    UpdateLetterhead(String),
    UpdateTitle(String),
    GeneratePDF,
    SavePDFTo(Option<P>),
    SaveInvoice,
    SaveInvoiceTo(Option<P>),
    LoadInvoice,
    LoadInvoiceFrom(Option<P>),
}

/// The outside work that an event asks for.
#[derive(Debug)]
pub enum Action<P> {
    /// Nothing to do.
    Nothing,
    /// Ask the user where to save the invoice, proposing `default_filename`.
    ChooseInvoiceSavePath { default_filename: String },
    /// Write `invoice` as JSON to `path`.
    WriteInvoice { path: P, invoice: Invoice },
    /// Ask the user which invoice file to load.
    ChooseInvoiceLoadPath,
    /// Read the invoice stored at `path` and make it the current invoice.
    ReadInvoice { path: P },
    /// Ask the user where to save the PDF, proposing `default_filename`.
    ChoosePdfSavePath { default_filename: String },
    /// Render the invoice as a PDF and write it to `path`.
    WritePdf { path: P },
}

// ---------------------------------------------------------------------------
// The model of the editor
// ---------------------------------------------------------------------------

/// The invoice that the editor starts with.
pub open spec fn initial_invoice() -> InvoiceModel {
    InvoiceModel {
        desc: Seq::empty(),
        menu_items: Seq::empty(),
        next_id: 1,
        letterhead: Seq::empty(),
        phone_number: Seq::empty(),
        invoice_title: Seq::empty(),
        event_date: Seq::empty(),
        price_per_person: Seq::empty(),
        num_people: 0,
        tax_percentage: "10%"@,
        total_bits: 0,
        editing_item: None,
    }
}

/// `k` is the position of the first menu item with identifier `id`.
pub open spec fn is_first_with_id(items: Seq<MenuItemModel>, id: u32, k: int) -> bool {
    &&& 0 <= k < items.len()
    &&& items[k].id == id
    &&& forall|j: int| 0 <= j < k ==> items[j].id != id
}

/// The position of the first menu item with identifier `id`, if there is one.
pub open spec fn first_with_id(items: Seq<MenuItemModel>, id: u32) -> Option<int> {
    if exists|k: int| is_first_with_id(items, id, k) {
        Some(choose|k: int| is_first_with_id(items, id, k))
    } else {
        None
    }
}

/// The menu items whose identifier is not `id`, in their order.
pub open spec fn without_id(items: Seq<MenuItemModel>, id: u32) -> Seq<MenuItemModel>
    decreases items.len(),
{
    if items.len() == 0 {
        Seq::empty()
    } else {
        let rest = without_id(items.drop_last(), id);
        if items.last().id == id {
            rest
        } else {
            rest.push(items.last())
        }
    }
}

/// The events that the editor accepts in state `m`: cancelling an edit is not
/// supported, and adding an item needs a fresh identifier below `u32::MAX`.
pub open spec fn update_allowed<P>(m: InvoiceModel, msg: Message<P>) -> bool {
    &&& !(msg is CancelEdit)
    &&& (msg is AddMenuItem && m.desc.len() > 0) ==> m.next_id < u32::MAX
}

/// The invoice after event `msg` in state `m`.
pub open spec fn next_state<P>(m: InvoiceModel, msg: Message<P>) -> InvoiceModel {
    match msg {
        Message::UpdateDesc(s) => InvoiceModel { desc: s@, ..m },
        Message::UpdateRate(s) => InvoiceModel { price_per_person: s@, ..m },
        Message::UpdateTaxRate(s) => InvoiceModel { tax_percentage: s@, ..m },
        Message::UpdatePhoneNumber(s) => InvoiceModel { phone_number: s@, ..m },
        Message::UpdatePeopleCount(s) => InvoiceModel {
            num_people: match spec_parse_u32(s@) {
                Some(n) => n,
                None => 0,
            },
            ..m
        },
        Message::UpdateEventDate(s) => InvoiceModel { event_date: s@, ..m },
        Message::AddMenuItem => if m.desc.len() > 0 {
            InvoiceModel {
                menu_items: m.menu_items.push(MenuItemModel { id: m.next_id, desc: m.desc }),
                next_id: (m.next_id + 1) as u32,
                desc: Seq::empty(),
                ..m
            }
        } else {
            m
        },
        Message::DeleteMenuItem(id) => InvoiceModel {
            menu_items: without_id(m.menu_items, id),
            ..m
        },
        Message::EditMenuItem(id) => match first_with_id(m.menu_items, id) {
            Some(k) => InvoiceModel { desc: m.menu_items[k].desc, editing_item: Some(id), ..m },
            None => m,
        },
        Message::UpdateMenuItem(id) => InvoiceModel {
            menu_items: match first_with_id(m.menu_items, id) {
                Some(k) => m.menu_items.update(
                    k,
                    MenuItemModel { id: m.menu_items[k].id, desc: m.desc },
                ),
                None => m.menu_items,
            },
            desc: Seq::empty(),
            editing_item: None,
            ..m
        },
        Message::UpdateLetterhead(s) => InvoiceModel { letterhead: s@, ..m },
        Message::UpdateTitle(s) => InvoiceModel { invoice_title: s@, ..m },
        _ => m,
    }
}

/// The invoice that is saved: the current one without the description being typed
/// and without an item being edited.
pub open spec fn saved_invoice(m: InvoiceModel) -> InvoiceModel {
    InvoiceModel { desc: Seq::empty(), editing_item: None, ..m }
}

/// The file name proposed for saving the invoice on the day `today`.
pub open spec fn invoice_file_name(m: InvoiceModel, today: Seq<char>) -> Seq<char> {
    m.invoice_title + "_"@ + today + ".invoice"@
}

/// The file name proposed for the PDF on the day `today`.
pub open spec fn pdf_file_name(m: InvoiceModel, today: Seq<char>) -> Seq<char> {
    m.invoice_title + "_"@ + today + ".pdf"@
}

/// The events whose action holds a date (in a proposed file name).
pub open spec fn uses_date<P>(msg: Message<P>) -> bool {
    msg is SaveInvoice || msg is GeneratePDF
}

/// `a` is the outside work asked for by event `msg` in state `m` on the day `today`.
pub open spec fn action_ok<P>(a: Action<P>, m: InvoiceModel, msg: Message<P>, today: Seq<char>) -> bool {
    match msg {
        Message::SaveInvoice => a matches Action::ChooseInvoiceSavePath { default_filename }
            && default_filename@ == invoice_file_name(m, today),
        Message::SaveInvoiceTo(Some(p)) => a matches Action::WriteInvoice { path, invoice }
            && path == p && invoice@ == saved_invoice(m),
        Message::LoadInvoice => a is ChooseInvoiceLoadPath,
        Message::LoadInvoiceFrom(Some(p)) => a matches Action::ReadInvoice { path } && path == p,
        Message::GeneratePDF => a matches Action::ChoosePdfSavePath { default_filename }
            && default_filename@ == pdf_file_name(m, today),
        Message::SavePDFTo(Some(p)) => a matches Action::WritePdf { path } && path == p,
        _ => a is Nothing,
    }
}

// ---------------------------------------------------------------------------
// Helpers on the menu
// ---------------------------------------------------------------------------

proof fn lemma_first_with_id(items: Seq<MenuItemModel>, id: u32, k: int)
    requires
        is_first_with_id(items, id, k),
    ensures
        first_with_id(items, id) == Some(k),
{
    let c = choose|k: int| is_first_with_id(items, id, k);
    assert(is_first_with_id(items, id, c));
    if c < k {
        assert(items[c].id != id);
    } else if k < c {
        assert(items[k].id != id);
    }
}

/// The position of the first item of `items` with identifier `id`.
fn find_item(items: &Vec<MenuItem>, id: u32) -> (r: Option<usize>)
    ensures
        r matches Some(k) ==> first_with_id(item_views(items@), id) == Some(k as int),
        r is None ==> first_with_id(item_views(items@), id) is None,
{
    let ghost v = item_views(items@);
    let mut i: usize = 0;
    while i < items.len()
        invariant
            i <= items@.len(),
            v == item_views(items@),
            forall|j: int| 0 <= j < i ==> v[j].id != id,
        decreases items@.len() - i,
    {
        if items[i].id == id {
            proof {
                assert(is_first_with_id(v, id, i as int));
                lemma_first_with_id(v, id, i as int);
            }
            return Some(i);
        }
        i = i + 1;
    }
    assert(!exists|k: int| is_first_with_id(v, id, k));
    None
}

/// Removes from `items` every item with identifier `id`, keeping the others in order.
fn remove_items_with_id(items: &mut Vec<MenuItem>, id: u32)
    ensures
        item_views(final(items)@) == without_id(item_views(old(items)@), id),
{
    let ghost v = item_views(items@);
    let ghost mut j: int = 0;
    let mut i: usize = 0;
    while i < items.len()
        invariant
            0 <= j <= v.len(),
            i == without_id(v.take(j), id).len(),
            item_views(items@) == without_id(v.take(j), id) + v.skip(j),
        decreases v.len() - j,
    {
        proof {
            assert(v.take(j + 1).drop_last() =~= v.take(j));
            assert(v.take(j + 1).last() == v[j]);
            assert(item_views(items@)[i as int] == v[j]);
        }
        if items[i].id == id {
            let ghost before = item_views(items@);
            items.remove(i);
            proof {
                assert(without_id(v.take(j + 1), id) == without_id(v.take(j), id));
                assert(item_views(items@) =~= before.remove(i as int));
                assert(before.remove(i as int) =~= without_id(v.take(j), id) + v.skip(j + 1));
                j = j + 1;
            }
        } else {
            proof {
                assert(item_views(items@) =~= without_id(v.take(j + 1), id) + v.skip(j + 1));
                j = j + 1;
            }
            i = i + 1;
        }
    }
    proof {
        assert(j == v.len()) by {
            if j < v.len() {
                assert(item_views(items@).len() == i + v.len() - j);
            }
        }
        assert(v.take(j) =~= v);
        assert(item_views(items@) =~= without_id(v, id));
    }
}

/// Copies the menu items.
fn copy_items(items: &Vec<MenuItem>) -> (r: Vec<MenuItem>)
    ensures
        item_views(r@) == item_views(items@),
{
    let r = items.clone();
    assert(item_views(r@) =~= item_views(items@)) by {
        assert forall|k: int| 0 <= k < r@.len() implies #[trigger] r@[k]@ == items@[k]@ by {
            assert(cloned::<MenuItem>(items[k], r[k]));
        }
    }
    r
}

/// A year as `%Y` writes it: four digits, zero-padded, or for a year outside
/// 0 to 9999 a sign followed by at least four digits.
pub open spec fn year_text(y: Seq<char>) -> bool {
    &&& y.len() >= 4
    &&& forall|i: int| 1 <= i < y.len() ==> is_ascii_digit(#[trigger] y[i])
    &&& is_ascii_digit(y[0]) || y[0] == '+' || y[0] == '-'
}

/// Two decimal digits denoting a number from `lo` to `hi`.
pub open spec fn two_digits_in(s: Seq<char>, lo: nat, hi: nat) -> bool {
    &&& s.len() == 2
    &&& all_digits(s)
    &&& lo <= digits_value(s) <= hi
}

/// A date in the form `%Y%m%d`: a year, a two-digit month and a two-digit day.
pub open spec fn compact_date(s: Seq<char>) -> bool {
    &&& s.len() >= 8
    &&& year_text(s.take(s.len() - 4))
    &&& two_digits_in(s.subrange(s.len() - 4, s.len() - 2), 1, 12)
    &&& two_digits_in(s.skip(s.len() - 2), 1, 31)
}

/// A date in the form `%Y-%m-%d`: a year, a dash, a two-digit month, a dash and a
/// two-digit day.
pub open spec fn dashed_date(s: Seq<char>) -> bool {
    &&& s.len() >= 10
    &&& year_text(s.take(s.len() - 6))
    &&& s[s.len() - 6] == '-'
    &&& two_digits_in(s.subrange(s.len() - 5, s.len() - 3), 1, 12)
    &&& s[s.len() - 3] == '-'
    &&& two_digits_in(s.skip(s.len() - 2), 1, 31)
}

/// The last second of the year 9999 in Unix time: the clock readings that are turned
/// into dates lie from 0 to here.
pub const LAST_DATED_SECOND: u64 = 253_402_300_799;

/// The time on the system clock as seconds and nanoseconds since the Unix epoch;
/// `None` when the clock reads before the epoch.
/// Trusted: `SystemTime::now` and `SystemTime::duration_since(UNIX_EPOCH)`, which
/// std documents as failing when the epoch is later than the time read, and
/// `Duration::subsec_nanos`, which is below one second. The reading itself depends on
/// the clock, so nothing more is stated of it.
#[verifier::external_body]
fn unix_time_now() -> (r: Option<(u64, u32)>)
    ensures
        r matches Some((secs, nanos)) ==> nanos < 1_000_000_000,
{
    match std::time::SystemTime::now().duration_since(std::time::UNIX_EPOCH) {
        Ok(d) => Some((d.as_secs(), d.subsec_nanos())),
        Err(_) => None,
    }
}

/// The local date at `secs` seconds (and `nanos` nanoseconds) after the Unix epoch,
/// written `%Y%m%d`; `None` where chrono cannot represent that instant.
/// Trusted: `chrono::DateTime::from_timestamp`, `with_timezone(&Local)` and
/// `format("%Y%m%d")`. The date depends on the machine's time zone, so only its form is
/// stated: chrono writes the year zero-padded to four digits (with a sign outside 0 to
/// 9999) and the month (1 to 12) and day (1 to 31) as two zero-padded digits. Within
/// the years 1970 to 9999 that `requires` admits, chrono's time-zone lookup does not
/// fail on its range checks; time-zone data that the system cannot resolve is the
/// machine's, and not ruled out here.
#[verifier::external_body]
fn local_date_compact_at(secs: i64, nanos: u32) -> (r: Option<String>)
    requires
        0 <= secs <= LAST_DATED_SECOND,
        nanos < 1_000_000_000,
    ensures
        r matches Some(s) ==> compact_date(s@),
{
    match chrono::DateTime::from_timestamp(secs, nanos) {
        Some(utc) => Some(utc.with_timezone(&chrono::Local).format("%Y%m%d").to_string()),
        None => None,
    }
}

/// The local date at `secs` seconds (and `nanos` nanoseconds) after the Unix epoch,
/// written `%Y-%m-%d`; `None` where chrono cannot represent that instant.
/// Trusted: the same chrono functions as [`local_date_compact_at`], formatting with
/// `%Y-%m-%d`: year, month and day in the same form, separated by dashes.
#[verifier::external_body]
fn local_date_dashed_at(secs: i64, nanos: u32) -> (r: Option<String>)
    requires
        0 <= secs <= LAST_DATED_SECOND,
        nanos < 1_000_000_000,
    ensures
        r matches Some(s) ==> dashed_date(s@),
{
    match chrono::DateTime::from_timestamp(secs, nanos) {
        Some(utc) => Some(utc.with_timezone(&chrono::Local).format("%Y-%m-%d").to_string()),
        None => None,
    }
}

/// Today's local date written `%Y%m%d`, or the empty text when the clock cannot be
/// read as a date from 1970 to 9999.
fn today_compact() -> (r: String)
    ensures
        r@.len() == 0 || compact_date(r@),
{
    match unix_time_now() {
        Some((secs, nanos)) => {
            if secs <= LAST_DATED_SECOND {
                match local_date_compact_at(secs as i64, nanos) {
                    Some(d) => d,
                    None => String::new(),
                }
            } else {
                String::new()
            }
        },
        None => String::new(),
    }
}

/// Today's local date written `%Y-%m-%d`, or the empty text when the clock cannot be
/// read as a date from 1970 to 9999.
fn today_dashed() -> (r: String)
    ensures
        r@.len() == 0 || dashed_date(r@),
{
    match unix_time_now() {
        Some((secs, nanos)) => {
            if secs <= LAST_DATED_SECOND {
                match local_date_dashed_at(secs as i64, nanos) {
                    Some(d) => d,
                    None => String::new(),
                }
            } else {
                String::new()
            }
        },
        None => String::new(),
    }
}

fn file_name(title: &String, today: &str, extension: &str) -> (r: String)
    ensures
        r@ == title@ + "_"@ + today@ + extension@,
{
    let mut r = title.clone();
    r.append("_");
    r.append(today);
    r.append(extension);
    r
}

impl Invoice {
    /// The invoice that the editor starts with: empty, with a tax rate of "10%" and
    /// the first menu item numbered 1.
    pub fn new() -> (r: Invoice)
        ensures
            r@ == initial_invoice(),
    {
        let r = Invoice {
            desc: String::new(),
            menu_items: Vec::new(),
            next_id: 1,
            letterhead: String::new(),
            invoice_title: String::new(),
            phone_number: String::new(),
            event_date: String::new(),
            price_per_person: String::new(),
            num_people: 0,
            tax_percentage: String::from_str("10%"),
            total_bits: 0,
            editing_item: None,
        };
        assert(r@ =~= initial_invoice());
        r
    }

    /// Copy of the invoice as it is saved (see [`saved_invoice`]).
    fn saved_copy(&self) -> (r: Invoice)
        ensures
            r@ == saved_invoice(self@),
    {
        let r = Invoice {
            menu_items: copy_items(&self.menu_items),
            next_id: self.next_id,
            letterhead: self.letterhead.clone(),
            invoice_title: self.invoice_title.clone(),
            phone_number: self.phone_number.clone(),
            event_date: self.event_date.clone(),
            desc: String::new(),
            price_per_person: self.price_per_person.clone(),
            num_people: self.num_people,
            tax_percentage: self.tax_percentage.clone(),
            total_bits: self.total_bits,
            editing_item: None,
        };
        assert(r@ =~= saved_invoice(self@));
        r
    }

    /// Handles one event of the editor on the day `today` (as the file names use it):
    /// changes the invoice as [`next_state`] says and returns the outside work that
    /// [`action_ok`] describes.
    pub fn update_at<P>(&mut self, message: Message<P>, today: &str) -> (action: Action<P>)
        requires
            update_allowed(old(self)@, message),
        ensures
            final(self)@ == next_state(old(self)@, message),
            action_ok(action, old(self)@, message, today@),
    {
        let ghost m = self@;
        match message {
            Message::UpdateDesc(desc) => {
                self.desc = desc;
                assert(self@ =~= next_state(m, message));
                Action::Nothing
            },
            Message::UpdateRate(rate) => {
                self.price_per_person = rate;
                assert(self@ =~= next_state(m, message));
                Action::Nothing
            },
            Message::UpdateTaxRate(tax_rate) => {
                self.tax_percentage = tax_rate;
                assert(self@ =~= next_state(m, message));
                Action::Nothing
            },
            Message::UpdatePhoneNumber(phone) => {
                self.phone_number = phone;
                assert(self@ =~= next_state(m, message));
                Action::Nothing
            },
            Message::UpdatePeopleCount(new_count) => {
                self.num_people = match parse_u32(new_count.as_str()) {
                    Some(n) => n,
                    None => 0,
                };
                assert(self@ =~= next_state(m, message));
                Action::Nothing
            },
            Message::UpdateEventDate(date) => {
                self.event_date = date;
                assert(self@ =~= next_state(m, message));
                Action::Nothing
            },
            Message::AddMenuItem => {
                if !self.desc.as_str().is_empty() {
                    let menu_item = MenuItem { id: self.next_id, desc: self.desc.clone() };
                    self.menu_items.push(menu_item);
                    self.next_id = self.next_id + 1;
                    self.desc = String::new();
                    assert(self@ =~= next_state(m, message));
                }
                Action::Nothing
            },
            Message::DeleteMenuItem(id) => {
                remove_items_with_id(&mut self.menu_items, id);
                assert(self@ =~= next_state(m, message));
                Action::Nothing
            },
            Message::EditMenuItem(id) => {
                match find_item(&self.menu_items, id) {
                    Some(k) => {
                        self.desc = self.menu_items[k].desc.clone();
                        self.editing_item = Some(id);
                        assert(self@ =~= next_state(m, message));
                    },
                    None => {},
                }
                Action::Nothing
            },
            Message::UpdateMenuItem(id) => {
                match find_item(&self.menu_items, id) {
                    Some(k) => {
                        let desc = self.desc.clone();
                        self.menu_items[k].desc = desc;
                    },
                    None => {},
                }
                self.desc = String::new();
                self.editing_item = None;
                assert(self@.menu_items =~= next_state(m, message).menu_items);
                assert(self@ =~= next_state(m, message));
                Action::Nothing
            },
            Message::UpdateLetterhead(val) => {
                self.letterhead = val;
                assert(self@ =~= next_state(m, message));
                Action::Nothing
            },
            Message::UpdateTitle(title) => {
                self.invoice_title = title;
                assert(self@ =~= next_state(m, message));
                Action::Nothing
            },
            Message::CancelEdit => Action::Nothing,
            Message::SaveInvoice => {
                let default_filename = file_name(&self.invoice_title, today, ".invoice");
                Action::ChooseInvoiceSavePath { default_filename }
            },
            Message::SaveInvoiceTo(path) => match path {
                Some(path) => Action::WriteInvoice { path, invoice: self.saved_copy() },
                None => Action::Nothing,
            },
            Message::LoadInvoice => Action::ChooseInvoiceLoadPath,
            Message::LoadInvoiceFrom(path) => match path {
                Some(path) => Action::ReadInvoice { path },
                None => Action::Nothing,
            },
            Message::GeneratePDF => {
                let default_filename = file_name(&self.invoice_title, today, ".pdf");
                Action::ChoosePdfSavePath { default_filename }
            },
            Message::SavePDFTo(path) => match path {
                Some(path) => Action::WritePdf { path },
                None => Action::Nothing,
            },
        }
    }

    /// Handles one event of the editor, reading the local date where a file name needs
    /// it (saving the invoice, generating the PDF). The invoice changes as
    /// [`next_state`] says; the action is the one [`action_ok`] describes, for the date
    /// that was read (a `%Y%m%d` date, or the empty text when the clock reads before
    /// 1970 or after 9999) where the event uses one.
    pub fn update<P>(&mut self, message: Message<P>) -> (action: Action<P>)
        requires
            update_allowed(old(self)@, message),
        ensures
            final(self)@ == next_state(old(self)@, message),
            uses_date(message) ==> exists|today: Seq<char>|
                (today.len() == 0 || compact_date(today)) && #[trigger] action_ok(
                    action,
                    old(self)@,
                    message,
                    today,
                ),
            !uses_date(message) ==> action_ok(action, old(self)@, message, Seq::empty()),
    {
        let needs_date = match &message {
            Message::SaveInvoice => true,
            Message::GeneratePDF => true,
            _ => false,
        };
        let today = if needs_date {
            today_compact()
        } else {
            String::new()
        };
        let ghost m = self@;
        let action = self.update_at(message, today.as_str());
        assert(action_ok(action, m, message, today@));
        action
    }
}

// ---------------------------------------------------------------------------
// The printed invoice
// ---------------------------------------------------------------------------

/// The built-in PDF fonts that the printed invoice uses.
#[derive(Clone, Copy, Debug, PartialEq, Eq, Structural)]
pub enum PdfFont {
    Helvetica,
    HelveticaBold,
}

/// One text section of the printed page: its cursor position in millimetres from the
/// bottom left corner, the font size set for it (in points, with `size_font`), the
/// font its text is written in, and its pieces of text.
#[derive(Debug)]
pub struct PdfText {
    pub x_mm: u32,
    pub y_mm: i128,
    pub size_pt: u32,
    pub size_font: PdfFont,
    pub text_font: PdfFont,
    pub items: Vec<String>,
}

#[verifier::ext_equal]
pub struct PdfTextModel {
    pub x_mm: u32,
    pub y_mm: int,
    pub size_pt: u32,
    pub size_font: PdfFont,
    pub text_font: PdfFont,
    pub items: Seq<Seq<char>>,
}

impl View for PdfText {
    type V = PdfTextModel;

    open spec fn view(&self) -> PdfTextModel {
        PdfTextModel {
            x_mm: self.x_mm,
            y_mm: self.y_mm as int,
            size_pt: self.size_pt,
            size_font: self.size_font,
            text_font: self.text_font,
            items: self.items@.map_values(|t: String| t@),
        }
    }
}

/// The printed invoice: a document title and one page of the given size in
/// millimetres with its text sections in order.
#[derive(Debug)]
pub struct PdfPlan {
    pub title: String,
    pub width_mm: u32,
    pub height_mm: u32,
    pub texts: Vec<PdfText>,
}

pub open spec fn text_views(ts: Seq<PdfText>) -> Seq<PdfTextModel> {
    ts.map_values(|t: PdfText| t@)
}

pub open spec fn text_line(
    x: u32,
    y: int,
    size: u32,
    size_font: PdfFont,
    text_font: PdfFont,
    items: Seq<Seq<char>>,
) -> PdfTextModel {
    PdfTextModel { x_mm: x, y_mm: y, size_pt: size, size_font, text_font, items }
}

/// The first `n` characters of `s`, or all of them if it is shorter: what the
/// `{:.n}` format gives for a string.
pub open spec fn at_most(s: Seq<char>, n: int) -> Seq<char> {
    if s.len() <= n {
        s
    } else {
        s.take(n)
    }
}

/// The height in millimetres of the letterhead block.
pub open spec fn header_height(m: InvoiceModel) -> int {
    if m.letterhead.len() > 0 {
        25
    } else {
        0
    }
}

/// The height in millimetres of the event and menu block.
pub open spec fn menu_height(m: InvoiceModel) -> int {
    if m.event_date.len() > 0 {
        25 + 6 * m.menu_items.len() as int
    } else {
        0
    }
}

/// The letterhead: the business name in bold and its phone number below, when there
/// is a letterhead.
pub open spec fn header_lines(m: InvoiceModel) -> Seq<PdfTextModel> {
    if m.letterhead.len() > 0 {
        seq![
            text_line(20, 270, 24, PdfFont::HelveticaBold, PdfFont::HelveticaBold, seq![m.letterhead]),
            text_line(20, 260, 14, PdfFont::Helvetica, PdfFont::Helvetica, seq![m.phone_number]),
        ]
    } else {
        Seq::empty()
    }
}

/// The event date, the menu heading and one line per menu item, starting at height
/// `top`, when there is an event date.
pub open spec fn menu_lines(m: InvoiceModel, top: int) -> Seq<PdfTextModel> {
    if m.event_date.len() > 0 {
        seq![
            text_line(20, top, 12, PdfFont::Helvetica, PdfFont::Helvetica, seq!["Event Date: "@, m.event_date]),
            text_line(20, top - 15, 14, PdfFont::HelveticaBold, PdfFont::HelveticaBold, seq!["Menu"@]),
        ] + Seq::new(
            m.menu_items.len(),
            |i: int|
                text_line(
                    25,
                    top - 25 - 6 * i,
                    10,
                    PdfFont::Helvetica,
                    PdfFont::Helvetica,
                    seq![m.menu_items[i].desc],
                ),
        )
    } else {
        Seq::empty()
    }
}

pub open spec fn subtotal_text(m: InvoiceModel, subtotal: Seq<char>) -> Seq<char> {
    "Subtotal: "@ + decimal(m.num_people as nat) + " people x "@ + at_most(m.price_per_person, 2)
        + "/person: $"@ + subtotal
}

pub open spec fn tax_text(m: InvoiceModel, tax: Seq<char>) -> Seq<char> {
    "Tax ("@ + m.tax_percentage + "): $"@ + tax
}

pub open spec fn total_text(total: Seq<char>) -> Seq<char> {
    "Total: $"@ + total
}

/// The pricing summary, 5 mm below `top`: its heading, then the subtotal, tax and total
/// lines with the given amounts.
pub open spec fn pricing_lines(
    m: InvoiceModel,
    top: int,
    subtotal: Seq<char>,
    tax: Seq<char>,
    total: Seq<char>,
) -> Seq<PdfTextModel> {
    let y = top - 5;
    seq![
        text_line(20, y, 14, PdfFont::HelveticaBold, PdfFont::Helvetica, seq!["Pricing Summary:"@]),
        text_line(25, y - 8, 10, PdfFont::Helvetica, PdfFont::Helvetica, seq![subtotal_text(m, subtotal)]),
        text_line(25, y - 14, 10, PdfFont::Helvetica, PdfFont::Helvetica, seq![tax_text(m, tax)]),
        text_line(25, y - 20, 10, PdfFont::Helvetica, PdfFont::Helvetica, seq![total_text(total)]),
    ]
}

/// The text sections of the printed invoice, top to bottom.
pub open spec fn pdf_lines(
    m: InvoiceModel,
    subtotal: Seq<char>,
    tax: Seq<char>,
    total: Seq<char>,
) -> Seq<PdfTextModel> {
    header_lines(m) + menu_lines(m, 270 - header_height(m)) + pricing_lines(
        m,
        270 - header_height(m) - menu_height(m),
        subtotal,
        tax,
        total,
    )
}

/// The title of the printed document on the day `today`.
pub open spec fn pdf_title(m: InvoiceModel, today: Seq<char>) -> Seq<char> {
    m.invoice_title + " - "@ + today
}

/// `s` without its `%` signs.
pub open spec fn without_percent(s: Seq<char>) -> Seq<char>
    decreases s.len(),
{
    if s.len() == 0 {
        Seq::empty()
    } else if s.last() == '%' {
        without_percent(s.drop_last())
    } else {
        without_percent(s.drop_last()).push(s.last())
    }
}

fn make_text(
    x: u32,
    y: i128,
    size: u32,
    size_font: PdfFont,
    text_font: PdfFont,
    items: Vec<String>,
) -> (r: PdfText)
    ensures
        r@ == text_line(x, y as int, size, size_font, text_font, items@.map_values(|t: String| t@)),
{
    PdfText { x_mm: x, y_mm: y, size_pt: size, size_font, text_font, items }
}

fn one_text(s: String) -> (r: Vec<String>)
    ensures
        r@.map_values(|t: String| t@) == seq![s@],
{
    let mut r = Vec::new();
    r.push(s);
    assert(r@.map_values(|t: String| t@) =~= seq![s@]);
    r
}

fn push_text(texts: &mut Vec<PdfText>, t: PdfText)
    ensures
        text_views(final(texts)@) == text_views(old(texts)@).push(t@),
{
    let ghost before = text_views(texts@);
    texts.push(t);
    assert(text_views(texts@) =~= before.push(t@));
}

impl Invoice {
    /// The text sections of the printed invoice (see [`pdf_lines`]), given the money
    /// amounts already written out with two decimals.
    pub fn pdf_texts(&self, subtotal: &str, tax: &str, total: &str) -> (r: Vec<PdfText>)
        ensures
            text_views(r@) == pdf_lines(self@, subtotal@, tax@, total@),
    {
        let ghost m = self@;
        let mut texts: Vec<PdfText> = Vec::new();
        let mut y: i128 = 270;

        if !self.letterhead.as_str().is_empty() {
            push_text(
                &mut texts,
                make_text(20, y, 24, PdfFont::HelveticaBold, PdfFont::HelveticaBold, one_text(self.letterhead.clone())),
            );
            y = y - 10;
            push_text(
                &mut texts,
                make_text(20, y, 14, PdfFont::Helvetica, PdfFont::Helvetica, one_text(self.phone_number.clone())),
            );
            y = y - 15;
        }
        assert(text_views(texts@) =~= header_lines(m));
        assert(y == 270 - header_height(m));
        let ghost top = y as int;

        if !self.event_date.as_str().is_empty() {
            let mut date_items: Vec<String> = Vec::new();
            date_items.push(String::from_str("Event Date: "));
            date_items.push(self.event_date.clone());
            assert(date_items@.map_values(|t: String| t@) =~= seq!["Event Date: "@, m.event_date]);
            push_text(&mut texts, make_text(20, y, 12, PdfFont::Helvetica, PdfFont::Helvetica, date_items));
            y = y - 15;
            push_text(
                &mut texts,
                make_text(20, y, 14, PdfFont::HelveticaBold, PdfFont::HelveticaBold, one_text(String::from_str("Menu"))),
            );
            y = y - 10;
            let n = self.menu_items.len();
            let mut i: usize = 0;
            while i < n
                invariant
                    n == self.menu_items@.len(),
                    m == self@,
                    i <= n,
                    top == 270 - header_height(m),
                    m.event_date.len() > 0,
                    y == top - 25 - 6 * i,
                    text_views(texts@) == header_lines(m) + menu_lines(m, top).take(2 + i),
                decreases n - i,
            {
                let ghost before = text_views(texts@);
                let line = make_text(
                    25,
                    y,
                    10,
                    PdfFont::Helvetica,
                    PdfFont::Helvetica,
                    one_text(self.menu_items[i].desc.clone()),
                );
                assert(self.menu_items@[i as int]@ == m.menu_items[i as int]);
                push_text(&mut texts, line);
                assert(menu_lines(m, top).take(2 + i + 1) =~= menu_lines(m, top).take(2 + i).push(
                    menu_lines(m, top)[2 + i],
                ));
                y = y - 6;
                i = i + 1;
            }
            assert(menu_lines(m, top).take(2 + n) =~= menu_lines(m, top));
        } else {
            assert(menu_lines(m, top) =~= Seq::<PdfTextModel>::empty());
        }
        assert(y == 270 - header_height(m) - menu_height(m));
        let ghost before_pricing = text_views(texts@);
        assert(before_pricing =~= header_lines(m) + menu_lines(m, top));

        y = y - 5;
        push_text(
            &mut texts,
            make_text(20, y, 14, PdfFont::HelveticaBold, PdfFont::Helvetica, one_text(String::from_str("Pricing Summary:"))),
        );
        y = y - 8;

        let mut sub = String::from_str("Subtotal: ");
        push_decimal(&mut sub, self.num_people);
        sub.append(" people x ");
        sub.append(self.price_per_person_shown());
        sub.append("/person: $");
        sub.append(subtotal);
        assert(sub@ =~= subtotal_text(m, subtotal@));
        push_text(&mut texts, make_text(25, y, 10, PdfFont::Helvetica, PdfFont::Helvetica, one_text(sub)));
        y = y - 6;

        let mut tax_line = String::from_str("Tax (");
        tax_line.append(self.tax_percentage.as_str());
        tax_line.append("): $");
        tax_line.append(tax);
        assert(tax_line@ =~= tax_text(m, tax@));
        push_text(&mut texts, make_text(25, y, 10, PdfFont::Helvetica, PdfFont::Helvetica, one_text(tax_line)));
        y = y - 6;

        let mut total_line = String::from_str("Total: $");
        total_line.append(total);
        push_text(&mut texts, make_text(25, y, 10, PdfFont::Helvetica, PdfFont::Helvetica, one_text(total_line)));

        assert(text_views(texts@) =~= pdf_lines(m, subtotal@, tax@, total@));
        texts
    }

    /// The price per person as the printed subtotal line shows it: its first two
    /// characters.
    fn price_per_person_shown(&self) -> (r: &str)
        ensures
            r@ == at_most(self.price_per_person@, 2),
    {
        let n = self.price_per_person.as_str().unicode_len();
        let k = if n < 2 {
            n
        } else {
            2
        };
        let r = self.price_per_person.as_str().substring_char(0, k);
        assert(r@ =~= at_most(self.price_per_person@, 2));
        r
    }

    /// The printed invoice on the day `today` (written year-month-day in the title),
    /// given the money amounts already written out with two decimals: an A4 page
    /// (210 by 297 mm) holding [`pdf_lines`].
    pub fn pdf_plan(&self, today: &str, subtotal: &str, tax: &str, total: &str) -> (r: PdfPlan)
        ensures
            r.title@ == pdf_title(self@, today@),
            r.width_mm == 210,
            r.height_mm == 297,
            text_views(r.texts@) == pdf_lines(self@, subtotal@, tax@, total@),
    {
        let mut title = self.invoice_title.clone();
        title.append(" - ");
        title.append(today);
        PdfPlan { title, width_mm: 210, height_mm: 297, texts: self.pdf_texts(subtotal, tax, total) }
    }

    /// [`Invoice::pdf_plan`] on the local date read from the clock (`%Y-%m-%d`), or on
    /// the empty text when the clock reads before 1970 or after 9999.
    pub fn pdf_plan_now(&self, subtotal: &str, tax: &str, total: &str) -> (r: PdfPlan)
        ensures
            exists|today: Seq<char>|
                (today.len() == 0 || dashed_date(today)) && r.title@ == #[trigger] pdf_title(
                    self@,
                    today,
                ),
            r.width_mm == 210,
            r.height_mm == 297,
            text_views(r.texts@) == pdf_lines(self@, subtotal@, tax@, total@),
    {
        let today = today_dashed();
        let r = self.pdf_plan(today.as_str(), subtotal, tax, total);
        assert(r.title@ == pdf_title(self@, today@));
        r
    }

    /// The tax rate as typed, without its `%` signs: the text that is read as a
    /// percentage.
    pub fn tax_rate_text(&self) -> (r: String)
        ensures
            r@ == without_percent(self.tax_percentage@),
    {
        let ghost s = self.tax_percentage@;
        let mut r = String::new();
        for c in iter: self.tax_percentage.as_str().chars()
            invariant
                iter.seq() == s,
                s == self.tax_percentage@,
                r@ == without_percent(s.take(iter.index())),
        {
            let ghost i = iter.index();
            proof {
                assert(s.take(i + 1).drop_last() =~= s.take(i));
                assert(s.take(i + 1).last() == c);
            }
            if c != '%' {
                string_push(&mut r, c);
            }
        }
        assert(s.take(s.len() as int) =~= s);
        r
    }
}

// ---------------------------------------------------------------------------
// Laws of the editor
// ---------------------------------------------------------------------------

/// The identifiers of the menu items increase along the menu and stay below `next_id`,
/// so they are distinct and the next item's identifier is fresh.
pub open spec fn ids_ordered(m: InvoiceModel) -> bool {
    &&& forall|i: int, j: int|
        0 <= i < j < m.menu_items.len() ==> m.menu_items[i].id < m.menu_items[j].id
    &&& forall|i: int| 0 <= i < m.menu_items.len() ==> m.menu_items[i].id < m.next_id
}

proof fn lemma_without_id(s: Seq<MenuItemModel>, id: u32)
    ensures
        without_id(s, id).len() <= s.len(),
        forall|i: int|
            0 <= i < without_id(s, id).len() ==> without_id(s, id)[i].id != id && exists|k: int|
                0 <= k < s.len() && #[trigger] without_id(s, id)[i] == s[k],
        (forall|i: int, j: int| 0 <= i < j < s.len() ==> s[i].id < s[j].id) ==> (forall|
            i: int,
            j: int,
        | 0 <= i < j < without_id(s, id).len() ==> without_id(s, id)[i].id < without_id(
            s,
            id,
        )[j].id),
    decreases s.len(),
{
    if s.len() > 0 {
        let p = s.drop_last();
        lemma_without_id(p, id);
        let w = without_id(s, id);
        let r = without_id(p, id);
        assert forall|i: int| 0 <= i < w.len() implies w[i].id != id && exists|k: int|
            0 <= k < s.len() && #[trigger] w[i] == s[k] by {
            if i < r.len() {
                assert(w[i] == r[i]);
                let k = choose|k: int| 0 <= k < p.len() && #[trigger] r[i] == p[k];
                assert(w[i] == s[k]);
            } else {
                assert(w[i] == s[s.len() - 1]);
            }
        }
        if forall|i: int, j: int| 0 <= i < j < s.len() ==> s[i].id < s[j].id {
            assert(forall|i: int, j: int| 0 <= i < j < p.len() ==> p[i].id < p[j].id) by {
                assert forall|i: int, j: int| 0 <= i < j < p.len() implies p[i].id < p[j].id by {
                    assert(p[i] == s[i] && p[j] == s[j]);
                }
            }
            assert forall|i: int, j: int| 0 <= i < j < w.len() implies w[i].id < w[j].id by {
                if j < r.len() {
                    assert(w[i] == r[i] && w[j] == r[j]);
                } else {
                    assert(w[i] == r[i]);
                    let k = choose|k: int| 0 <= k < p.len() && #[trigger] r[i] == p[k];
                    assert(p[k] == s[k]);
                    assert(w[j] == s[s.len() - 1]);
                }
            }
        }
    }
}

proof fn lemma_without_absent_id(s: Seq<MenuItemModel>, id: u32)
    requires
        forall|i: int| 0 <= i < s.len() ==> s[i].id != id,
    ensures
        without_id(s, id) == s,
    decreases s.len(),
{
    if s.len() > 0 {
        lemma_without_absent_id(s.drop_last(), id);
        assert(s.drop_last().push(s.last()) =~= s);
    }
}

/// Law: the invoice the editor starts with has its identifiers in order.
pub proof fn lemma_initial_ids_ordered()
    ensures
        ids_ordered(initial_invoice()),
{
}

/// Law: every accepted event keeps the identifiers of the menu increasing and below
/// `next_id`; in particular no two menu items ever share an identifier.
pub proof fn lemma_update_keeps_ids_ordered<P>(m: InvoiceModel, msg: Message<P>)
    requires
        ids_ordered(m),
        update_allowed(m, msg),
    ensures
        ids_ordered(next_state(m, msg)),
{
    let n = next_state(m, msg);
    match msg {
        Message::AddMenuItem => {
            if m.desc.len() > 0 {
                assert forall|i: int, j: int|
                    0 <= i < j < n.menu_items.len() implies n.menu_items[i].id
                    < n.menu_items[j].id by {
                    assert(n.menu_items[i] == m.menu_items[i]);
                }
                assert forall|i: int| 0 <= i < n.menu_items.len() implies n.menu_items[i].id
                    < n.next_id by {
                    if i < m.menu_items.len() {
                        assert(n.menu_items[i] == m.menu_items[i]);
                    }
                }
            }
        },
        Message::DeleteMenuItem(id) => {
            lemma_without_id(m.menu_items, id);
            assert forall|i: int| 0 <= i < n.menu_items.len() implies n.menu_items[i].id
                < n.next_id by {
                let k = choose|k: int|
                    0 <= k < m.menu_items.len() && #[trigger] n.menu_items[i] == m.menu_items[k];
            }
        },
        Message::UpdateMenuItem(id) => {
            match first_with_id(m.menu_items, id) {
                Some(k) => {
                    assert(is_first_with_id(m.menu_items, id, k));
                    assert forall|i: int| 0 <= i < n.menu_items.len() implies n.menu_items[i].id
                        == m.menu_items[i].id by {}
                },
                None => {},
            }
        },
        _ => {},
    }
}

/// The menu items have pairwise distinct identifiers, all below `next_id`, in any
/// order (as a loaded invoice may hold them).
pub open spec fn ids_distinct(m: InvoiceModel) -> bool {
    &&& forall|i: int, j: int|
        0 <= i < m.menu_items.len() && 0 <= j < m.menu_items.len() && i != j
            ==> m.menu_items[i].id != m.menu_items[j].id
    &&& forall|i: int| 0 <= i < m.menu_items.len() ==> m.menu_items[i].id < m.next_id
}

proof fn lemma_without_id_distinct(s: Seq<MenuItemModel>, id: u32)
    requires
        forall|i: int, j: int| 0 <= i < s.len() && 0 <= j < s.len() && i != j ==> s[i].id != s[j].id,
    ensures
        forall|i: int, j: int|
            0 <= i < without_id(s, id).len() && 0 <= j < without_id(s, id).len() && i != j
                ==> without_id(s, id)[i].id != without_id(s, id)[j].id,
    decreases s.len(),
{
    if s.len() > 0 {
        let p = s.drop_last();
        assert forall|i: int, j: int| 0 <= i < p.len() && 0 <= j < p.len() && i != j implies p[i].id
            != p[j].id by {
            assert(p[i] == s[i] && p[j] == s[j]);
        }
        lemma_without_id_distinct(p, id);
        lemma_without_id(p, id);
        let r = without_id(p, id);
        let w = without_id(s, id);
        if s.last().id != id {
            assert forall|i: int, j: int|
                0 <= i < w.len() && 0 <= j < w.len() && i != j implies w[i].id != w[j].id by {
                if i < r.len() && j < r.len() {
                    assert(w[i] == r[i] && w[j] == r[j]);
                } else if i < r.len() {
                    let k = choose|k: int| 0 <= k < p.len() && #[trigger] r[i] == p[k];
                    assert(p[k] == s[k]);
                    assert(w[j] == s[s.len() - 1]);
                } else {
                    let k = choose|k: int| 0 <= k < p.len() && #[trigger] r[j] == p[k];
                    assert(p[k] == s[k]);
                    assert(w[i] == s[s.len() - 1]);
                }
            }
        }
    }
}

/// Law: every accepted event keeps the identifiers of the menu distinct and below
/// `next_id`, whatever their order.
pub proof fn lemma_update_keeps_ids_distinct<P>(m: InvoiceModel, msg: Message<P>)
    requires
        ids_distinct(m),
        update_allowed(m, msg),
    ensures
        ids_distinct(next_state(m, msg)),
{
    let n = next_state(m, msg);
    match msg {
        Message::AddMenuItem => {
            if m.desc.len() > 0 {
                assert forall|i: int, j: int|
                    0 <= i < n.menu_items.len() && 0 <= j < n.menu_items.len() && i != j implies n.menu_items[i].id
                    != n.menu_items[j].id by {
                    if i < m.menu_items.len() {
                        assert(n.menu_items[i] == m.menu_items[i]);
                    }
                    if j < m.menu_items.len() {
                        assert(n.menu_items[j] == m.menu_items[j]);
                    }
                }
                assert forall|i: int| 0 <= i < n.menu_items.len() implies n.menu_items[i].id
                    < n.next_id by {
                    if i < m.menu_items.len() {
                        assert(n.menu_items[i] == m.menu_items[i]);
                    }
                }
            }
        },
        Message::DeleteMenuItem(id) => {
            lemma_without_id(m.menu_items, id);
            lemma_without_id_distinct(m.menu_items, id);
            assert forall|i: int| 0 <= i < n.menu_items.len() implies n.menu_items[i].id
                < n.next_id by {
                let k = choose|k: int|
                    0 <= k < m.menu_items.len() && #[trigger] n.menu_items[i] == m.menu_items[k];
            }
        },
        Message::UpdateMenuItem(id) => {
            match first_with_id(m.menu_items, id) {
                Some(k) => {
                    assert(is_first_with_id(m.menu_items, id, k));
                    assert forall|i: int| 0 <= i < n.menu_items.len() implies n.menu_items[i].id
                        == m.menu_items[i].id by {}
                },
                None => {},
            }
        },
        _ => {},
    }
}

/// Law: after deleting the items with identifier `id`, no item has that identifier.
pub proof fn lemma_delete_removes_id<P>(m: InvoiceModel, id: u32)
    ensures
        forall|i: int|
            0 <= i < next_state(m, Message::<P>::DeleteMenuItem(id)).menu_items.len()
                ==> #[trigger] next_state(m, Message::<P>::DeleteMenuItem(id)).menu_items[i].id != id,
{
    lemma_without_id(m.menu_items, id);
}

/// Law: deleting the item that was just added gives back the menu as it was.
pub proof fn lemma_add_then_delete_restores_menu<P>(m: InvoiceModel)
    requires
        ids_ordered(m),
        m.desc.len() > 0,
        m.next_id < u32::MAX,
    ensures
        next_state(
            next_state(m, Message::<P>::AddMenuItem),
            Message::<P>::DeleteMenuItem(m.next_id),
        ).menu_items == m.menu_items,
{
    let added = next_state(m, Message::<P>::AddMenuItem);
    assert(added.menu_items.drop_last() =~= m.menu_items);
    lemma_without_absent_id(m.menu_items, m.next_id);
}

/// Law: editing an item and saving it back without changing its description leaves
/// the menu as it was, and ends the edit with an empty description.
pub proof fn lemma_edit_then_update_keeps_menu<P>(m: InvoiceModel, id: u32)
    ensures
        ({
            let e = next_state(next_state(m, Message::<P>::EditMenuItem(id)), Message::<P>::UpdateMenuItem(id));
            &&& e.menu_items == m.menu_items
            &&& e.desc == Seq::<char>::empty()
            &&& e.editing_item is None
        }),
{
    let e1 = next_state(m, Message::<P>::EditMenuItem(id));
    match first_with_id(m.menu_items, id) {
        Some(k) => {
            assert(is_first_with_id(m.menu_items, id, k));
            assert(e1.menu_items == m.menu_items);
            assert(m.menu_items.update(k, MenuItemModel { id: m.menu_items[k].id, desc: m.menu_items[k].desc }) =~= m.menu_items);
        },
        None => {},
    }
}

/// Law: asking to save, load or print, and saving, loading or printing to a path,
/// leave the invoice as it is: the file work is the action's alone.
pub proof fn lemma_file_events_keep_invoice<P>(m: InvoiceModel, p: Option<P>)
    ensures
        next_state(m, Message::<P>::SaveInvoice) == m,
        next_state(m, Message::<P>::SaveInvoiceTo(p)) == m,
        next_state(m, Message::<P>::LoadInvoice) == m,
        next_state(m, Message::<P>::LoadInvoiceFrom(p)) == m,
        next_state(m, Message::<P>::GeneratePDF) == m,
        next_state(m, Message::<P>::SavePDFTo(p)) == m,
{
}

/// Law: editing an item that is on the menu makes that identifier the one being edited
/// and loads the description of an item with that identifier, leaving the menu as it
/// is; editing an identifier that is not on the menu changes nothing.
pub proof fn lemma_edit_targets_identifier<P>(m: InvoiceModel, id: u32)
    ensures
        (exists|k: int| 0 <= k < m.menu_items.len() && m.menu_items[k].id == id) ==> {
            let e = next_state(m, Message::<P>::EditMenuItem(id));
            &&& e.editing_item == Some(id)
            &&& exists|k: int|
                0 <= k < m.menu_items.len() && m.menu_items[k].id == id && e.desc
                    == m.menu_items[k].desc
            &&& e.menu_items == m.menu_items
            &&& e.next_id == m.next_id
        },
        (forall|k: int| 0 <= k < m.menu_items.len() ==> m.menu_items[k].id != id) ==> next_state(
            m,
            Message::<P>::EditMenuItem(id),
        ) == m,
{
    if exists|k: int| 0 <= k < m.menu_items.len() && m.menu_items[k].id == id {
        let k0 = choose|k: int| 0 <= k < m.menu_items.len() && m.menu_items[k].id == id;
        lemma_first_exists(m.menu_items, id, k0);
        let f = choose|k: int| is_first_with_id(m.menu_items, id, k);
        assert(is_first_with_id(m.menu_items, id, f));
    } else {
        assert(!exists|k: int| is_first_with_id(m.menu_items, id, k));
    }
}

proof fn lemma_first_exists(items: Seq<MenuItemModel>, id: u32, k: int)
    requires
        0 <= k < items.len(),
        items[k].id == id,
    ensures
        exists|f: int| is_first_with_id(items, id, f),
    decreases k,
{
    if forall|j: int| 0 <= j < k ==> items[j].id != id {
        assert(is_first_with_id(items, id, k));
    } else {
        let j = choose|j: int| 0 <= j < k && items[j].id == id;
        lemma_first_exists(items, id, j);
    }
}

/// Law: saving an item's description writes the typed description into one item with
/// that identifier, when there is one, and changes nothing else on the menu: every
/// identifier, every item with another identifier, and the length of the menu stay as
/// they were. The typed description is cleared and the edit ends.
pub proof fn lemma_update_changes_only_identifier<P>(m: InvoiceModel, id: u32)
    ensures
        ({
            let n = next_state(m, Message::<P>::UpdateMenuItem(id));
            &&& n.menu_items.len() == m.menu_items.len()
            &&& forall|i: int| 0 <= i < m.menu_items.len() ==> n.menu_items[i].id == m.menu_items[i].id
            &&& forall|i: int|
                0 <= i < m.menu_items.len() && m.menu_items[i].id != id ==> n.menu_items[i]
                    == m.menu_items[i]
            &&& (exists|k: int| 0 <= k < m.menu_items.len() && m.menu_items[k].id == id) ==> exists|
                k: int,
            | 0 <= k < m.menu_items.len() && m.menu_items[k].id == id && n.menu_items[k].desc
                == m.desc
            &&& n.desc.len() == 0
            &&& n.editing_item is None
        }),
{
    if exists|k: int| 0 <= k < m.menu_items.len() && m.menu_items[k].id == id {
        let k0 = choose|k: int| 0 <= k < m.menu_items.len() && m.menu_items[k].id == id;
        lemma_first_exists(m.menu_items, id, k0);
    }
    match first_with_id(m.menu_items, id) {
        Some(k) => {
            assert(is_first_with_id(m.menu_items, id, k));
        },
        None => {},
    }
}

/// Law: what is saved keeps every field of the invoice but the description being typed,
/// which is saved empty, and the item being edited, which is saved as none.
pub proof fn lemma_saved_invoice_keeps_fields(m: InvoiceModel)
    ensures
        ({
            let s = saved_invoice(m);
            &&& s.desc.len() == 0
            &&& s.editing_item is None
            &&& s.menu_items == m.menu_items
            &&& s.next_id == m.next_id
            &&& s.letterhead == m.letterhead
            &&& s.phone_number == m.phone_number
            &&& s.invoice_title == m.invoice_title
            &&& s.event_date == m.event_date
            &&& s.price_per_person == m.price_per_person
            &&& s.num_people == m.num_people
            &&& s.tax_percentage == m.tax_percentage
            &&& s.total_bits == m.total_bits
        }),
{
}

/// Law: typing a description does not change what is saved.
pub proof fn lemma_typing_does_not_change_saved<P>(m: InvoiceModel, s: String)
    ensures
        saved_invoice(next_state(m, Message::<P>::UpdateDesc(s))) == saved_invoice(m),
{
    assert(saved_invoice(next_state(m, Message::<P>::UpdateDesc(s))) =~= saved_invoice(m));
}

/// Law: a text without `%` signs is read as it is.
pub proof fn lemma_without_percent_keeps_plain_text(s: Seq<char>)
    requires
        forall|i: int| 0 <= i < s.len() ==> s[i] != '%',
    ensures
        without_percent(s) == s,
    decreases s.len(),
{
    if s.len() > 0 {
        assert forall|i: int| 0 <= i < s.drop_last().len() implies s.drop_last()[i] != '%' by {
            assert(s.drop_last()[i] == s[i]);
        }
        lemma_without_percent_keeps_plain_text(s.drop_last());
        assert(s.drop_last().push(s.last()) =~= s);
    }
}

/// Law: removing the `%` signs works piece by piece: the result for two texts one after
/// the other is the result for the first followed by the result for the second, and a
/// lone `%` gives nothing. Every other character is kept, in order.
pub proof fn lemma_without_percent_concat(a: Seq<char>, b: Seq<char>)
    ensures
        without_percent(a + b) == without_percent(a) + without_percent(b),
        without_percent(seq!['%']) == Seq::<char>::empty(),
        forall|i: int| 0 <= i < without_percent(a).len() ==> without_percent(a)[i] != '%',
    decreases b.len(),
{
    assert(seq!['%'].drop_last() =~= Seq::<char>::empty());
    assert(seq!['%'].last() == '%');
    assert(without_percent(Seq::<char>::empty()) == Seq::<char>::empty());
    lemma_without_percent_has_none(a);
    if b.len() == 0 {
        assert(a + b =~= a);
        assert(without_percent(b) =~= Seq::<char>::empty());
        assert(without_percent(a) + without_percent(b) =~= without_percent(a));
    } else {
        lemma_without_percent_concat(a, b.drop_last());
        assert((a + b).drop_last() =~= a + b.drop_last());
        assert((a + b).last() == b.last());
        if b.last() == '%' {
        } else {
            assert(without_percent(a + b) =~= without_percent(a) + without_percent(b));
        }
    }
}

proof fn lemma_without_percent_has_none(s: Seq<char>)
    ensures
        forall|i: int| 0 <= i < without_percent(s).len() ==> without_percent(s)[i] != '%',
    decreases s.len(),
{
    if s.len() > 0 {
        lemma_without_percent_has_none(s.drop_last());
        let p = without_percent(s.drop_last());
        if s.last() != '%' {
            assert forall|i: int| 0 <= i < without_percent(s).len() implies without_percent(s)[i]
                != '%' by {
                if i < p.len() {
                    assert(without_percent(s)[i] == p[i]);
                }
            }
        }
    }
}

/// Law: which lines the printed invoice holds: two for a letterhead when there is one,
/// the event date, the menu heading and one per menu item when there is an event date
/// (whatever the letterhead), and always the four pricing lines.
pub proof fn lemma_pdf_lines_present(m: InvoiceModel, subtotal: Seq<char>, tax: Seq<char>, total: Seq<char>)
    ensures
        ({
            let ls = pdf_lines(m, subtotal, tax, total);
            let h: int = if m.letterhead.len() > 0 { 2 } else { 0 };
            &&& ls.len() == h + (if m.event_date.len() > 0 { 2 + m.menu_items.len() } else { 0 }) + 4
            &&& m.letterhead.len() > 0 ==> ls[0].items == seq![m.letterhead] && ls[1].items == seq![m.phone_number]
            &&& m.event_date.len() > 0 ==> {
                &&& ls[h].items == seq!["Event Date: "@, m.event_date]
                &&& ls[h + 1].items == seq!["Menu"@]
                &&& forall|k: int|
                    0 <= k < m.menu_items.len() ==> #[trigger] ls[h + 2 + k].items == seq![m.menu_items[k].desc]
            }
            &&& ls[ls.len() - 4].items == seq!["Pricing Summary:"@]
            &&& ls[ls.len() - 1].items == seq!["Total: $"@ + total]
        }),
{
    let ls = pdf_lines(m, subtotal, tax, total);
    let hl = header_lines(m);
    let ml = menu_lines(m, 270 - header_height(m));
    let pl = pricing_lines(m, 270 - header_height(m) - menu_height(m), subtotal, tax, total);
    let h: int = if m.letterhead.len() > 0 { 2 } else { 0 };
    assert(hl.len() == h);
    if m.event_date.len() > 0 {
        assert(ml.len() == 2 + m.menu_items.len());
        assert forall|k: int| 0 <= k < m.menu_items.len() implies #[trigger] ls[h + 2 + k].items
            == seq![m.menu_items[k].desc] by {
            assert(ls[h + 2 + k] == ml[2 + k]);
        }
        assert(ls[h] == ml[0]);
        assert(ls[h + 1] == ml[1]);
    } else {
        assert(ml.len() == 0);
    }
    assert(ls[ls.len() - 4] == pl[0]);
    assert(ls[ls.len() - 1] == pl[3]);
}

/// Law: deleting the items with identifier `id` keeps exactly the items with another
/// identifier, in their order.
pub proof fn lemma_delete_is_filter<P>(m: InvoiceModel, id: u32)
    ensures
        next_state(m, Message::<P>::DeleteMenuItem(id)).menu_items == m.menu_items.filter(
            |x: MenuItemModel| x.id != id,
        ),
{
    lemma_without_id_is_filter(m.menu_items, id);
}

proof fn lemma_without_id_is_filter(s: Seq<MenuItemModel>, id: u32)
    ensures
        without_id(s, id) == s.filter(|x: MenuItemModel| x.id != id),
    decreases s.len(),
{
    reveal_with_fuel(Seq::filter, 1);
    if s.len() > 0 {
        lemma_without_id_is_filter(s.drop_last(), id);
    }
}

/// Law: the `%`-free text is the typed text with every character but `%` kept, in
/// order.
pub proof fn lemma_without_percent_is_filter(s: Seq<char>)
    ensures
        without_percent(s) == s.filter(|c: char| c != '%'),
    decreases s.len(),
{
    reveal_with_fuel(Seq::filter, 1);
    if s.len() > 0 {
        lemma_without_percent_is_filter(s.drop_last());
    }
}

/// Law: each text event sets its own field to the text typed and leaves every other
/// field as it was.
pub proof fn lemma_text_events_set_their_field<P>(m: InvoiceModel, t: String)
    ensures
        next_state(m, Message::<P>::UpdateDesc(t)) == (InvoiceModel { desc: t@, ..m }),
        next_state(m, Message::<P>::UpdateRate(t)).price_per_person == t@,
        next_state(m, Message::<P>::UpdateRate(t)) == (InvoiceModel { price_per_person: t@, ..m }),
        next_state(m, Message::<P>::UpdateTaxRate(t)).tax_percentage == t@,
        next_state(m, Message::<P>::UpdateTaxRate(t)) == (InvoiceModel { tax_percentage: t@, ..m }),
        next_state(m, Message::<P>::UpdatePhoneNumber(t)).phone_number == t@,
        next_state(m, Message::<P>::UpdatePhoneNumber(t)) == (InvoiceModel { phone_number: t@, ..m }),
        next_state(m, Message::<P>::UpdateEventDate(t)).event_date == t@,
        next_state(m, Message::<P>::UpdateEventDate(t)) == (InvoiceModel { event_date: t@, ..m }),
        next_state(m, Message::<P>::UpdateLetterhead(t)).letterhead == t@,
        next_state(m, Message::<P>::UpdateLetterhead(t)) == (InvoiceModel { letterhead: t@, ..m }),
        next_state(m, Message::<P>::UpdateTitle(t)).invoice_title == t@,
        next_state(m, Message::<P>::UpdateTitle(t)) == (InvoiceModel { invoice_title: t@, ..m }),
        next_state(m, Message::<P>::UpdatePeopleCount(t)) == (InvoiceModel {
            num_people: match spec_parse_u32(t@) {
                Some(n) => n,
                None => 0,
            },
            ..m
        }),
{
}

/// Law: adding a typed item appends it with the fresh identifier, moves `next_id` on by
/// one (the editor accepts the event only below `u32::MAX`), clears the description and keeps the other items; with nothing typed, adding
/// changes nothing.
pub proof fn lemma_add_appends<P>(m: InvoiceModel)
    ensures
        m.desc.len() > 0 ==> {
            let n = next_state(m, Message::<P>::AddMenuItem);
            &&& n.menu_items.len() == m.menu_items.len() + 1
            &&& n.menu_items.take(m.menu_items.len() as int) == m.menu_items
            &&& n.menu_items.last().id == m.next_id
            &&& n.menu_items.last().desc == m.desc
            &&& m.next_id < u32::MAX ==> n.next_id == m.next_id + 1
            &&& n.desc.len() == 0
        },
        m.desc.len() == 0 ==> next_state(m, Message::<P>::AddMenuItem) == m,
{
    if m.desc.len() > 0 {
        let n = next_state(m, Message::<P>::AddMenuItem);
        assert(n.menu_items.take(m.menu_items.len() as int) =~= m.menu_items);
    }
}

/// Law: the printed lines run down the page: the first stands at 270 mm and each one
/// stands lower than the one before it.
pub proof fn lemma_pdf_lines_run_down(m: InvoiceModel, subtotal: Seq<char>, tax: Seq<char>, total: Seq<char>)
    ensures
        pdf_lines(m, subtotal, tax, total)[0].y_mm == (if m.letterhead.len() > 0 || m.event_date.len() > 0 { 270int } else { 265int }),
        forall|i: int, j: int|
            0 <= i < j < pdf_lines(m, subtotal, tax, total).len() ==> pdf_lines(m, subtotal, tax, total)[i].y_mm
                > pdf_lines(m, subtotal, tax, total)[j].y_mm,
{
    let ls = pdf_lines(m, subtotal, tax, total);
    let hl = header_lines(m);
    let top = 270 - header_height(m);
    let ml = menu_lines(m, top);
    let bottom = top - menu_height(m);
    let pl = pricing_lines(m, bottom, subtotal, tax, total);
    let h = hl.len() as int;
    let n = m.menu_items.len() as int;
    // every header line lies above `top`, every menu line between `top` and `bottom`
    // (inclusive above), every pricing line below `bottom`.
    assert forall|i: int| 0 <= i < hl.len() implies hl[i].y_mm > top by {}
    if m.event_date.len() > 0 {
        assert forall|i: int| 2 <= i < ml.len() implies #[trigger] ml[i].y_mm == top - 25 - 6 * (i - 2) by {
        }
    }
    assert forall|i: int, j: int| 0 <= i < j < ls.len() implies ls[i].y_mm > ls[j].y_mm by {
        if i < h {
            assert(ls[i] == hl[i]);
            if j < h {
                assert(ls[j] == hl[j]);
            } else if j < h + ml.len() {
                assert(ls[j] == ml[j - h]);
                if j - h >= 2 {
                    assert(ml[j - h].y_mm == top - 25 - 6 * (j - h - 2));
                }
            } else {
                assert(ls[j] == pl[j - h - ml.len()]);
            }
        } else if i < h + ml.len() {
            assert(ls[i] == ml[i - h]);
            if i - h >= 2 {
                assert(ml[i - h].y_mm == top - 25 - 6 * (i - h - 2));
            }
            if j < h + ml.len() {
                assert(ls[j] == ml[j - h]);
                if j - h >= 2 {
                    assert(ml[j - h].y_mm == top - 25 - 6 * (j - h - 2));
                }
            } else {
                assert(ls[j] == pl[j - h - ml.len()]);
            }
        } else {
            assert(ls[i] == pl[i - h - ml.len()]);
            assert(ls[j] == pl[j - h - ml.len()]);
        }
    }
    if h > 0 {
        assert(ls[0] == hl[0]);
    } else if ml.len() > 0 {
        assert(ls[0] == ml[0]);
    } else {
        assert(ls[0] == pl[0]);
    }
}

} // verus!
