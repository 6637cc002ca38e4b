# memvid_search

Helpers for ranked search over an archive of frames, written and verified with
[Verus](https://github.com/verus-lang/verus).

The library turns raw search hits into what a caller sees:

| Module     | What it does                                                                   |
|------------|--------------------------------------------------------------------------------|
| `types`    | the records that search returns, and the views in which contracts speak of them |
| `cursor`   | reads page cursors                                                             |
| `calendar` | shows timestamps as RFC 3339 text                                              |
| `context`  | selects up to 24 hits, diverse in documents, and renders them as one text      |
| `tokens`   | finds query tokens in texts and orders hits by how well they match             |
| `decay`    | ranks candidates by scores that fade with age                                  |
| `temporal` | attaches the times of frames, and the times that hits mention                  |
| `entities` | attaches the entities of frames                                                |
| `order`    | counting over index ranges, and a verified sort                                |
| `text`     | trimming, letter case, byte order and substring search                         |
| `numeral`  | decimal numerals                                                               |

Contracts describe results by value: an element's place in a sorted result is the number of elements
that come before it, and a text is a sequence of characters. Laws that span several functions are
public proof functions, named `lemma_...`, beside the functions that they speak of.

`app/` holds what is not verified: reading frames from an archive, and floating-point arithmetic. It
hands the library plain values. Scores cross the border as bit patterns.

## What is trusted

Five calls are taken on trust. Each stands in a small function whose doc comment says what is claimed
of it: `str::trim`, `str::parse::<usize>` and `String::from_utf8_lossy` in `text`, and, in `calendar`,
`OffsetDateTime::from_unix_timestamp` and `OffsetDateTime::format` of the `time` crate.

## Limits

- `token_match_metrics` and `reorder_hits_by_token_matches` take tokens that are not empty.
- `build_context` takes hits whose matches, summed up for each document, fit a machine word.
- `candidate_ages` takes timestamps that are no further apart than the greatest 64-bit integer.
