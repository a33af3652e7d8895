# expand-range

Numeric and alphabetic ranges with steps and zero padding, the way shell brace
expansion writes them: `{1..5}`, `{a..e}`, `{01..03}`, `{1..10..3}`. With the
regex option a range becomes one regex source string instead of a list.

The library is written in Verus. Its functions carry contracts stated over
mathematical models (`int`, `Seq<char>`, and views of the library's types),
and Verus proves them, except for three small trusted items whose contracts
are believed: `char_from_code` (`char::from_u32`), `push_char`
(`String::push`) and `call_closure` (a caller's transform closure). Padding
widths are counted in characters, not bytes.

## Layout

- `src/lib.rs`: the entry points `fill`, `fill_checked` and `fill_range`, the
  error type, and the specification of a whole call (`checked_spec`).
- `src/value.rs`: bounds, elements and results, and the exact decimal reading
  of string bounds (whitespace, sign, fraction, exponent).
- `src/options.rs`: options, the step argument, and element transforms.
- `src/regex_range.rs`: compiling an integer interval into a compact regex.
- `src/regex_lang.rs`: what those regexes match, and the proof that they match
  exactly the texts of the interval.
- `src/laws.rs`: properties of the library as a whole.
- `src/text.rs`: decimal rendering, padding, joining and regex escaping.
- `app/`: `Display` and `std::error::Error` forms of the error and element
  types, and a floating-point step argument.

## Proved properties

- A regex for two `i64` bounds matches the decimal text of every integer
  between them and no other text (`law_range_pattern_matches_exactly`,
  `law_regex_output_matches_exactly`).
- With bounds padded by leading zeros, the regex matches every padded text
  in the range, and only texts of integers in the range behind zeros; with
  strict zeros, exactly the padded texts, the minus sign counted in the width
  (`law_padded_range_pattern`).
  Both facts are also part of the contract of `to_regex_range`.
- Grouping options only wrap the ungrouped alternation
  (`law_regex_grouping`).
- Swapping the bounds reverses a list, whatever the bounds; the sign of the
  step is ignored; a leading zero pads every element to one width; string
  bounds keep the output textual and list the same numbers; without strict
  mode no call fails.
- A transform in step position drops the other options, options in step
  position replace the options argument, and a zero or empty step falls back
  to the options' step: for the same transform results the outcomes agree,
  and the transform is handed the same numbers.
- A transform is handed, call by call, the values of the walk and their
  positions (`fill`, `fill_checked`), and is only called where its own
  precondition admits the arguments.
- With a transform that gives one result per argument (or none), whole calls
  agree as above, and `fill` is `fill_checked` with errors as empty lists.
- A step text whose integer value lies beyond `i64` walks as the widest
  `i64` step.
