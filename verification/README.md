# waywallen

Decision logic of the Waywallen wallpaper daemon and of its headless dump
display, written in Rust and verified with Verus.

| Module | What it decides |
|--------|-----------------|
| `wallpaper_sort` | which wallpapers a user sees, and in which order |
| `event_process` | when wallpaper recall starts, and which displays share an apply |
| `media_monitor` | which MPRIS players are watched, and when "anything playing" is published |
| `cli` | what the dump display's command line asks for |
| `vk_consumer` | device choice, capabilities, memory types |
| `handshake`, `consumer` | the dump display's side of the display protocol |
| `dump`, `linear` | names, descriptions and rows of dumped frames, and reading linear frames back |
| `tiled` | reading tiled frames back, and giving every object and descriptor back on failure |
| `text`, `table`, `vulkan` | texts and numbers, a small map, Vulkan constants |

`src/` never does I/O: where work alternates with I/O, a state machine says
what to do next and is told how it went. `app/` holds the system, Vulkan,
D-Bus and async calls that drive these machines. Laws over whole runs are the
public proof functions whose names begin with `law_`.
