# lacuna

Grammar practice by filling in the gaps. A sheet is one grammar topic and
twenty sentences with blanks in them; lacuna grades what you type, and the
topic comes back on an FSRS schedule.

The rules of the game are a Verus library, proved against their contracts:

| module     | what it decides |
|------------|-----------------|
| `domain`   | CEFR levels, review ratings, error tags and their text forms |
| `text`     | the string work everything else is built on: trimming, words, case |
| `sheet`    | what a sheet is, when it is valid, and "also accept" |
| `grade`    | how one answer and a whole sheet are graded |
| `review`   | review mode: time budgets and ratings from speed and mistakes |
| `pack`     | when a language pack is valid, and its teaching order |
| `calendar` | dates as day numbers |
| `progress` | a topic's state between sessions, the answer log, error tag counts |
| `session`  | what the request handlers decide: the sheet a browser sees, runs, queues |
| `stats`    | the numbers behind the statistics page |

`app/` is the server around it: HTTP with axum, SQLite with sqlx, the FSRS
scheduler (floating point throughout), and the JSON shapes.

Collections keyed by text are kept as vectors in the library: the answers to a
sheet are a list of (blank id, answer) pairs, the first pair filed under an id
counting, and error tags are counted by searching a list of (tag, count)
pairs. Verus accepts `HashMap` calls with `String` keys but proves nothing about
what they hold, so a map there would leave those contracts unprovable.

Where grading depends on Unicode's case tables, `grade::grade_with_cases`
takes what the tables say as arguments, and `sheet::leaks_with` takes which
characters end a word; `grade_blank` and `leaks_in` ask the tables and call
them.

The server creates the database tables it needs when it starts.
