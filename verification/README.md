# dekho

Search movies and TV series from the terminal and watch them in mpv. Metadata
comes from TMDB; releases are found through Torrentio and apibay and streamed
over BitTorrent, so playback starts in seconds and seeking works.

`src/` is the library: everything that is decided, computed or parsed on the way
from a query to a playing file, verified with Verus. `app/` is the program
around it: the command line, the network, the disk, the torrent session and mpv.

## The library

Choosing and measuring a release:

| Module | |
|---|---|
| `torrentio`, `apibay`, `sources` | what the indexers answer, as one list of releases |
| `audio` | which tracks a release carries |
| `pick` | which releases are worth trying, and in what order |
| `engine` | which file of a torrent to play, and the probe that measures the swarm |
| `session` | one run: the walk from a list of releases to one that plays |
| `series` | seasons, episodes, and the queue that keeps one episode ahead |
| `player` | how mpv is launched and spoken to |

What is remembered:

| Module | |
|---|---|
| `history` | what was watched, and how far |
| `link` | what the connection can deliver |
| `replay` | which release played last time |
| `cache` | the piece cache: what to evict, and what never to |
| `apicache` | answers kept on disk, and how long they are good for |

The catalog:

| Module | |
|---|---|
| `tmdb` | titles, people and videos |
| `browse`, `menu` | filters, and the browser's rows and menus |
| `api` | the same catalog as JSON |
| `prefetch` | which images to download, and where to |
| `config`, `xdg`, `calendar` | settings, places, dates |

Underneath: `text`, `list`, `json`, `decimal`, `float`, and `binary64`, which is
double-precision arithmetic on integers. Rates, sizes and fractions are computed
there exactly as a double would hold them, so that what a contract says of a
bitrate is what the program prints.

## What is stated

Each function's contract says what it returns for every input. What holds of the
library as a whole stands beside the functions it is about, as public proof
functions: that what a live session streams is never evicted, that a release
which is not on disk already is called ready only once the swarm has sustained
its rate, that no also-ran keeps downloading once something plays, that the
release which played last time is tried first unless it answers the audio asked
for worse than the one it would push aside, that the link's estimate never
goes past what was measured, that a title has one entry in the history, and
more.

What `serde_json`, the system clock, Unicode's tables and the standard library's
strings and paths do is taken from them; each such place is marked
`external_body` or `assume_specification` and says in its comment what is
believed of it.

## Tests

`tests/` runs the library on concrete values.
