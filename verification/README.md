# mod_bridge

The verified core of a live mod bridge for a Flash player (a Ruffle fork):
an agent sends JSON requests that read, write and call into a running movie
and its SharedObjects, through a desktop HTTP bridge.

`src/` holds the logic, each function with a contract proved by Verus:

| module | what it decides |
|--------|-----------------|
| `request` | which op a request names, with each missing field at its default, and which requests are refused before any work |
| `paths` | the path grammar: `so:NAME\|PROPS`, `DISPLAY.PROPS`, `/` display walks, `.` property walks |
| `lookup` | which SharedObject a name means, which trait a name means, `find` keywords, array indices, the traits `list_slots` reports |
| `walk` | the walks of `list_display` and `find`: visiting order, paths, depth and count limits, SharedObject hits first |
| `ops` | the checks and paths of the SharedObject and storage ops |
| `base64` | the storage codec, with its round trip proved |
| `json_text` | quoting a string as JSON, and reading a field back by text search |
| `server` | the desktop bridge's state: attached movie, waiting RPCs (at most two), frozen paths |
| `http` | routes, `Content-Length`, the request body and the response text |
| `text` | character-level helpers |

`app/` is the part that touches the player and the socket: it reads the
display list and AVM2 objects, serves HTTP, and hands what it reads to the
library. The refusals that follow from a request, a path or a name, and the
labels of the answers, are written by the library; app/ writes only what the
player itself reports (a failed call or write, a value that is not an
object). What stays there is the work on the player itself: resolving paths
against live objects, reading and writing properties, calling methods, and
turning AVM2 values into JSON.
