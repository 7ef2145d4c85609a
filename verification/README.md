# catering_invoice

A catering invoice editor. The verified library (`src/`) holds the editor's
logic; `app/` is the desktop program around it.

- `src/invoice.rs`: the invoice, the editor's events (`Message`), the state
  transition `Invoice::update` with the outside work it asks for (`Action`),
  the layout of the printed invoice (`Invoice::pdf_plan`), and the laws of the
  editor (identifiers stay ordered and fresh, add-then-delete and
  edit-then-save restore the menu, file events leave the invoice alone).
- `src/menu_item.rs`: menu entries.
- `src/utilities.rs`: greedy word wrapping with its laws, reading and writing
  decimal `u32`s.
- `src/display.rs`: splitting a framebuffer `virtual_size` file into its fields.
- `app/`: the GUI (libcosmic), file dialogs (rfd), JSON files (serde_json),
  PDF output (printpdf), and everything computed in floating point (prices,
  taxes, page geometry, display sizes).
