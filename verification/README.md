# calendar

The program behind rationality-munich.com/calendar: it reads the Munich
groups' event feeds (LessWrong, the EA Forum, Meetup, Luma, Philosophia's
Google Calendar, the MCMP reading group's page), merges events that were
posted in several places, and writes the pages, the Atom/RSS feeds and the
iCalendar files. A small server takes visitors' "about how many came?"
reports.

## Layout

- `src/`: the library, verified with Verus. Every public function states in
  its contract what it returns, over spec functions on sequences of
  characters and event models.
  - `text`: characters, words, numbers and search, as std does them.
  - `time`: whole-second times and the calls into chrono and chrono-tz.
  - `event`: the event model, cleaning, cross-post matching, merging, ids.
  - `ics`: reading and writing iCalendar, recurrence expansion.
  - `render`, `stats`, `feed`, `site`: the pages, statistics, feeds and the
    full set of files; `markup`: reading escaped HTML back.
  - `sources`: turning what each source returns into events, and the
    hand-kept data (polls, headcounts, ranges, history).
  - `kind`, `turnout`, `attendance`: event kinds, what a turnout forecast
    rests on, and the attendance server's decisions.
- `app/`: the program around the library: HTTP, files, JSON, the
  forecast's floating-point arithmetic, and the attendance server's loop.
  `calendar` builds the site; `calendar attend` serves reports.
- `tests/`: tests of the library on concrete values.

The laws the library keeps (cross-posts merge into one event, ids are
unique, escaping round-trips, an address reports an event once a day, a
report whose save failed is not taken, …) are public proof functions named
`law_…`.
