use catering_invoice::invoice::{Action, Invoice, Message, PdfFont};
use catering_invoice::menu_item::MenuItem;

type Msg = Message<String>;

fn add_item(invoice: &mut Invoice, desc: &str) {
    let _ = invoice.update_at(Msg::UpdateDesc(desc.to_string()), "20240102");
    let _ = invoice.update_at(Msg::AddMenuItem, "20240102");
}

fn descs(invoice: &Invoice) -> Vec<(u32, String)> {
    invoice.menu_items.iter().map(|m| (m.id, m.desc.clone())).collect()
}

#[test]
fn new_invoice_is_empty_with_default_tax() {
    let invoice = Invoice::new();
    assert_eq!(invoice.tax_percentage, "10%");
    assert_eq!(invoice.next_id, 1);
    assert!(invoice.menu_items.is_empty());
    assert_eq!(invoice.num_people, 0);
    assert_eq!(invoice.total_bits, 0);
    assert_eq!(invoice.editing_item, None);
}

#[test]
fn adding_items_numbers_them() {
    let mut invoice = Invoice::new();
    add_item(&mut invoice, "Soup");
    add_item(&mut invoice, "Bread");
    assert_eq!(descs(&invoice), vec![(1, "Soup".to_string()), (2, "Bread".to_string())]);
    assert_eq!(invoice.next_id, 3);
    assert_eq!(invoice.desc, "");
}

#[test]
fn adding_with_empty_description_does_nothing() {
    let mut invoice = Invoice::new();
    let action = invoice.update_at(Msg::AddMenuItem, "");
    assert!(matches!(action, Action::Nothing));
    assert!(invoice.menu_items.is_empty());
    assert_eq!(invoice.next_id, 1);
}

#[test]
fn deleting_removes_every_item_with_the_id() {
    let mut invoice = Invoice::new();
    add_item(&mut invoice, "Soup");
    add_item(&mut invoice, "Bread");
    add_item(&mut invoice, "Cake");
    invoice.menu_items.push(MenuItem { id: 2, desc: "Extra".to_string() });
    let _ = invoice.update_at(Msg::DeleteMenuItem(2), "");
    assert_eq!(descs(&invoice), vec![(1, "Soup".to_string()), (3, "Cake".to_string())]);
    let _ = invoice.update_at(Msg::DeleteMenuItem(9), "");
    assert_eq!(descs(&invoice), vec![(1, "Soup".to_string()), (3, "Cake".to_string())]);
}

#[test]
fn editing_then_updating_changes_the_first_matching_item() {
    let mut invoice = Invoice::new();
    add_item(&mut invoice, "Soup");
    add_item(&mut invoice, "Bread");
    let _ = invoice.update_at(Msg::EditMenuItem(2), "");
    assert_eq!(invoice.desc, "Bread");
    assert_eq!(invoice.editing_item, Some(2));
    let _ = invoice.update_at(Msg::UpdateDesc("Garlic bread".to_string()), "");
    let _ = invoice.update_at(Msg::UpdateMenuItem(2), "");
    assert_eq!(descs(&invoice), vec![(1, "Soup".to_string()), (2, "Garlic bread".to_string())]);
    assert_eq!(invoice.desc, "");
    assert_eq!(invoice.editing_item, None);
}

#[test]
fn editing_an_unknown_item_changes_nothing() {
    let mut invoice = Invoice::new();
    add_item(&mut invoice, "Soup");
    let _ = invoice.update_at(Msg::UpdateDesc("typed".to_string()), "");
    let _ = invoice.update_at(Msg::EditMenuItem(5), "");
    assert_eq!(invoice.desc, "typed");
    assert_eq!(invoice.editing_item, None);
    let _ = invoice.update_at(Msg::UpdateMenuItem(5), "");
    assert_eq!(descs(&invoice), vec![(1, "Soup".to_string())]);
    assert_eq!(invoice.desc, "");
}

#[test]
fn edit_then_update_without_change_keeps_the_menu() {
    let mut invoice = Invoice::new();
    add_item(&mut invoice, "Soup");
    add_item(&mut invoice, "Bread");
    let before = descs(&invoice);
    let _ = invoice.update_at(Msg::EditMenuItem(1), "");
    let _ = invoice.update_at(Msg::UpdateMenuItem(1), "");
    assert_eq!(descs(&invoice), before);
    assert_eq!(invoice.desc, "");
    assert_eq!(invoice.editing_item, None);
}

#[test]
fn add_then_delete_restores_the_menu() {
    let mut invoice = Invoice::new();
    add_item(&mut invoice, "Soup");
    let before = descs(&invoice);
    let id = invoice.next_id;
    add_item(&mut invoice, "Bread");
    let _ = invoice.update_at(Msg::DeleteMenuItem(id), "");
    assert_eq!(descs(&invoice), before);
}

#[test]
fn text_fields_are_set() {
    let mut invoice = Invoice::new();
    let _ = invoice.update_at(Msg::UpdateRate("15.50".to_string()), "");
    let _ = invoice.update_at(Msg::UpdateTaxRate("8%".to_string()), "");
    let _ = invoice.update_at(Msg::UpdatePhoneNumber("555-0100".to_string()), "");
    let _ = invoice.update_at(Msg::UpdateEventDate("2024-05-01".to_string()), "");
    let _ = invoice.update_at(Msg::UpdateLetterhead("Acme Catering".to_string()), "");
    let _ = invoice.update_at(Msg::UpdateTitle("Smith".to_string()), "");
    assert_eq!(invoice.price_per_person, "15.50");
    assert_eq!(invoice.tax_percentage, "8%");
    assert_eq!(invoice.phone_number, "555-0100");
    assert_eq!(invoice.event_date, "2024-05-01");
    assert_eq!(invoice.letterhead, "Acme Catering");
    assert_eq!(invoice.invoice_title, "Smith");
}

#[test]
fn people_count_is_parsed_or_zero() {
    let mut invoice = Invoice::new();
    let _ = invoice.update_at(Msg::UpdatePeopleCount("12".to_string()), "");
    assert_eq!(invoice.num_people, 12);
    let _ = invoice.update_at(Msg::UpdatePeopleCount("12a".to_string()), "");
    assert_eq!(invoice.num_people, 0);
    let _ = invoice.update_at(Msg::UpdatePeopleCount("+40".to_string()), "");
    assert_eq!(invoice.num_people, 40);
    let _ = invoice.update_at(Msg::UpdatePeopleCount("".to_string()), "");
    assert_eq!(invoice.num_people, 0);
}

#[test]
fn save_invoice_proposes_a_dated_file_name() {
    let mut invoice = Invoice::new();
    let _ = invoice.update_at(Msg::UpdateTitle("Smith".to_string()), "");
    match invoice.update_at(Msg::SaveInvoice, "20240102") {
        Action::ChooseInvoiceSavePath { default_filename } => {
            assert_eq!(default_filename, "Smith_20240102.invoice")
        }
        other => panic!("unexpected action {other:?}"),
    }
    match invoice.update_at(Msg::GeneratePDF, "20240102") {
        Action::ChoosePdfSavePath { default_filename } => {
            assert_eq!(default_filename, "Smith_20240102.pdf")
        }
        other => panic!("unexpected action {other:?}"),
    }
}

#[test]
fn save_invoice_to_a_path_writes_a_clean_copy() {
    let mut invoice = Invoice::new();
    add_item(&mut invoice, "Soup");
    let _ = invoice.update_at(Msg::EditMenuItem(1), "");
    match invoice.update_at(Msg::SaveInvoiceTo(Some("out.invoice".to_string())), "") {
        Action::WriteInvoice { path, invoice: saved } => {
            assert_eq!(path, "out.invoice");
            assert_eq!(saved.desc, "");
            assert_eq!(saved.editing_item, None);
            assert_eq!(saved.next_id, 2);
            assert_eq!(saved.menu_items.len(), 1);
            assert_eq!(saved.menu_items[0].desc, "Soup");
            assert_eq!(saved.tax_percentage, "10%");
        }
        other => panic!("unexpected action {other:?}"),
    }
    // The invoice being edited is unchanged.
    assert_eq!(invoice.desc, "Soup");
    assert_eq!(invoice.editing_item, Some(1));
}

#[test]
fn cancelled_dialogs_do_nothing() {
    let mut invoice = Invoice::new();
    assert!(matches!(invoice.update_at(Msg::SaveInvoiceTo(None), ""), Action::Nothing));
    assert!(matches!(invoice.update_at(Msg::LoadInvoiceFrom(None), ""), Action::Nothing));
    assert!(matches!(invoice.update_at(Msg::SavePDFTo(None), ""), Action::Nothing));
}

#[test]
fn file_events_ask_for_the_right_work() {
    let mut invoice = Invoice::new();
    assert!(matches!(invoice.update_at(Msg::LoadInvoice, ""), Action::ChooseInvoiceLoadPath));
    match invoice.update_at(Msg::LoadInvoiceFrom(Some("in.invoice".to_string())), "") {
        Action::ReadInvoice { path } => assert_eq!(path, "in.invoice"),
        other => panic!("unexpected action {other:?}"),
    }
    match invoice.update_at(Msg::SavePDFTo(Some("out.pdf".to_string())), "") {
        Action::WritePdf { path } => assert_eq!(path, "out.pdf"),
        other => panic!("unexpected action {other:?}"),
    }
}

#[test]
fn update_reads_the_clock_for_file_names() {
    let mut invoice = Invoice::new();
    let _ = invoice.update(Msg::UpdateTitle("Jones".to_string()));
    match invoice.update(Msg::SaveInvoice) {
        Action::ChooseInvoiceSavePath { default_filename } => {
            assert!(default_filename.starts_with("Jones_"));
            assert!(default_filename.ends_with(".invoice"));
            let date = &default_filename["Jones_".len()..default_filename.len() - ".invoice".len()];
            assert_eq!(date.len(), 8);
            assert!(date.chars().all(|c| c.is_ascii_digit()));
        }
        other => panic!("unexpected action {other:?}"),
    }
}

#[test]
fn tax_rate_text_drops_percent_signs() {
    let mut invoice = Invoice::new();
    assert_eq!(invoice.tax_rate_text(), "10");
    let _ = invoice.update_at(Msg::UpdateTaxRate("%7.5%".to_string()), "");
    assert_eq!(invoice.tax_rate_text(), "7.5");
}

fn sample_invoice() -> Invoice {
    let mut invoice = Invoice::new();
    let _ = invoice.update_at(Msg::UpdateLetterhead("Acme".to_string()), "");
    let _ = invoice.update_at(Msg::UpdatePhoneNumber("555".to_string()), "");
    let _ = invoice.update_at(Msg::UpdateEventDate("2024-05-01".to_string()), "");
    let _ = invoice.update_at(Msg::UpdatePeopleCount("12".to_string()), "");
    let _ = invoice.update_at(Msg::UpdateRate("15.50".to_string()), "");
    let _ = invoice.update_at(Msg::UpdateTaxRate("8%".to_string()), "");
    let _ = invoice.update_at(Msg::UpdateTitle("Smith".to_string()), "");
    add_item(&mut invoice, "Soup");
    add_item(&mut invoice, "Bread");
    invoice
}

#[test]
fn pdf_layout_of_a_full_invoice() {
    let invoice = sample_invoice();
    let texts = invoice.pdf_texts("186.00", "14.88", "200.88");
    let got: Vec<(u32, i128, u32, PdfFont, PdfFont, Vec<String>)> = texts
        .iter()
        .map(|t| (t.x_mm, t.y_mm, t.size_pt, t.size_font, t.text_font, t.items.clone()))
        .collect();
    let (h, b) = (PdfFont::Helvetica, PdfFont::HelveticaBold);
    let s = |v: &[&str]| v.iter().map(|x| x.to_string()).collect::<Vec<_>>();
    let expected = vec![
        (20, 270, 24, b, b, s(&["Acme"])),
        (20, 260, 14, h, h, s(&["555"])),
        (20, 245, 12, h, h, s(&["Event Date: ", "2024-05-01"])),
        (20, 230, 14, b, b, s(&["Menu"])),
        (25, 220, 10, h, h, s(&["Soup"])),
        (25, 214, 10, h, h, s(&["Bread"])),
        (20, 203, 14, b, h, s(&["Pricing Summary:"])),
        (25, 195, 10, h, h, s(&["Subtotal: 12 people x 15/person: $186.00"])),
        (25, 189, 10, h, h, s(&["Tax (8%): $14.88"])),
        (25, 183, 10, h, h, s(&["Total: $200.88"])),
    ];
    assert_eq!(got, expected);
}

#[test]
fn pdf_layout_without_letterhead_or_event() {
    let mut invoice = Invoice::new();
    add_item(&mut invoice, "Soup");
    let texts = invoice.pdf_texts("0.00", "0.00", "0.00");
    let got: Vec<(i128, Vec<String>)> = texts.iter().map(|t| (t.y_mm, t.items.clone())).collect();
    assert_eq!(
        got,
        vec![
            (265, vec!["Pricing Summary:".to_string()]),
            (257, vec!["Subtotal: 0 people x /person: $0.00".to_string()]),
            (251, vec!["Tax (10%): $0.00".to_string()]),
            (245, vec!["Total: $0.00".to_string()]),
        ]
    );
}

#[test]
fn pdf_price_shows_at_most_two_characters() {
    let mut invoice = Invoice::new();
    let _ = invoice.update_at(Msg::UpdateRate("9".to_string()), "");
    let texts = invoice.pdf_texts("a", "b", "c");
    assert_eq!(texts[1].items[0], format!("Subtotal: 0 people x {:.2}/person: $a", "9"));
    let _ = invoice.update_at(Msg::UpdateRate("éàü".to_string()), "");
    let texts = invoice.pdf_texts("a", "b", "c");
    assert_eq!(texts[1].items[0], format!("Subtotal: 0 people x {:.2}/person: $a", "éàü"));
}

#[test]
fn pdf_plan_has_title_and_a4_page() {
    let invoice = sample_invoice();
    let plan = invoice.pdf_plan("2024-05-01", "1", "2", "3");
    assert_eq!(plan.title, "Smith - 2024-05-01");
    assert_eq!((plan.width_mm, plan.height_mm), (210, 297));
    assert_eq!(plan.texts.len(), 10);
    let now = invoice.pdf_plan_now("1", "2", "3");
    assert!(now.title.starts_with("Smith - "));
    assert_eq!(now.title.len(), "Smith - ".len() + 10);
}

#[test]
fn deleting_keeps_distinct_ids_in_any_order() {
    let mut invoice = Invoice::new();
    invoice.menu_items.push(MenuItem { id: 5, desc: "Cake".to_string() });
    invoice.menu_items.push(MenuItem { id: 2, desc: "Soup".to_string() });
    invoice.menu_items.push(MenuItem { id: 9, desc: "Tea".to_string() });
    invoice.next_id = 10;
    let _ = invoice.update_at(Msg::DeleteMenuItem(2), "");
    add_item(&mut invoice, "Bread");
    assert_eq!(
        descs(&invoice),
        vec![(5, "Cake".to_string()), (9, "Tea".to_string()), (10, "Bread".to_string())]
    );
    assert_eq!(invoice.next_id, 11);
}

#[test]
fn pdf_title_date_has_the_dashed_form() {
    let invoice = sample_invoice();
    let plan = invoice.pdf_plan_now("1", "2", "3");
    let date = &plan.title["Smith - ".len()..];
    let bytes = date.as_bytes();
    assert_eq!(bytes[bytes.len() - 3], b'-');
    assert_eq!(bytes[bytes.len() - 6], b'-');
}
