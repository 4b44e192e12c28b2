# rscsv

Fast CSV for Ruby, with the CSV logic written in Verus. Writing is proved
to give the CSV text of the rows (`format::encode_records`), and parsing to
give the records of the data (`grammar::csv_records`), both resting on the
stated behaviour of the `csv` and `csv-core` calls they make.

- `src/` is the library: writing rows of strings as CSV text (`writer`,
  `strings`), the CSV text that a record makes (`format`), the records that
  CSV data makes (`grammar`), parsing CSV data
  with `csv-core` into rows of fields (`reader`), copying cells into
  `csv::ByteRecord`s (`record`), and the chunked stream that feeds the
  `csv` reader from a Ruby enumerator (`enumerator`). The calls into `csv`
  and `csv-core` go through small trusted wrappers whose contracts state
  what those crates' sources show.
- `app/` is the Ruby extension built with `magnus`: it turns Ruby objects
  into the library's values and back, and raises `TypeError` and
  `RuntimeError`.
- `tests/` exercises the library on concrete inputs.
