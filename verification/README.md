# battery_log

An inventory of rechargeable batteries: which cells there are, where they lie,
how they measure, and which of them go together into a device. Every label
carries a Data Matrix code with the battery's number.

The library in `src/` holds what the program decides, and is verified with
[Verus](https://github.com/verus-lang/verus): each function states what it
returns or changes in its `requires` and `ensures`.

| modules | what they hold |
| --- | --- |
| `rows`, `db`, `reads`, `writes`, `records`, `sets` | the tables, and every query and change on them |
| `config`, `decimal` | the settings with their layers: stored, environment, built in |
| `health`, `chart`, `dates` | what a battery's readings say about it |
| `matching` | which batteries to hand out together |
| `labels`, `printing`, `printer`, `pdf` | labels, the byte stream of the label printer, label sheets |
| `list`, `view`, `pages` | what each page shows |
| `router`, `actions`, `adding`, `batch`, `handout`, `instruments`, `api`, `links`, `helpers` | what each link, form and scan does |
| `filters` | small texts for the templates, and where the window opens |
| `text`, `num`, `order`, `select`, `dict`, `json` | the ground the rest stands on |
| `laws`, `promises` | what holds across several operations |

Calls into other crates stand behind functions marked
`#[verifier::external_body]`; the comment above each says what is taken on
trust: `chrono` for dates, `serde_json` for JSON, `datamatrix` for the code,
`image` for PNG files, `url` for query strings, `pulldown-cmark` for Markdown.

`app/` is the program around the library: the SQLite file, the templates, the
outlines of digits, the printer's socket, and the window.
