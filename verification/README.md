# generator

Scanning and synthesis of search-session logs, written in Verus.

A session log is text in Windows-1251 with one event per line
(`SESSION_START`, `QS <time> {query}`, `CARD_SEARCH_START`, `DOC_OPEN`, result
lines `<search id> <doc> ...`). The library

* scans a log into its statistics (`scan`), counting events, gaps between
  timestamps, document ids and queries;
* folds the statistics of sampled logs into distributions (`freq`, `dist`):
  event counts, gaps, event-kind counts, the most frequent document ids and
  the first queries;
* draws synthetic sessions from the distributions and renders them as logs
  (`plan`, `render`), ready for storage under `synthetic-<uuid>.txt`; the
  random values of a session are drawn first, and `draws` makes them into
  the session's plan;
* builds the fixed geo and publisher-category dictionaries of the
  ad-impressions dataset (`dicts`).

`laws` and `roundtrip` hold properties proved across functions, among them
that a rendered session scans back to the kinds and queries it wrote, that
scanning two joined logs appends their records, and that blank lines and
whitespace around lines leave a scan unchanged.

`app/` is the service around the library: configuration from the
environment, S3 listing, reading and writing, the distribution cache file,
and the timing of arrivals.
