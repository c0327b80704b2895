# Laser Lockdown

The firmware of a makerspace's lockbox: keycards open its door, an administration panel manages
the users, and an SD card keeps the users, the password and the log.

The library in `src/` decides; it is written in Verus, and what it does is stated in contracts
and proved. `app/` is the firmware around it: it reads pins, files and sockets, hands the library
what it found, and carries out what comes back.

| module | what it decides |
| --- | --- |
| `door` | what happens when a keycard is read: adding it, opening the door, locking it again |
| `rfid` | which pulses of the reader make up a keycard |
| `storage` | what each command does to the files, and what is kept in memory |
| `sd` | reading, writing and cutting the files on the card |
| `userdb` | the text of the user database |
| `roster` | the list of users in memory, a `heapless::Vec` |
| `net`, `web` | the requests of the panel: sessions, users, log and password |
| `cookie` | the session token in a `Cookie` header |
| `hashing` | what is hashed, and the text of a digest |
| `ntp`, `calendar` | the clock and the dates it shows |
| `buzzer` | tunes |
| `sd_utils` | retries |
| `signals` | the commands between the tasks |
| `text` | lines, numbers and characters |

What holds of the library as a whole is stated by the public proof functions whose names begin
with `law_`. The functions marked `external_body` and the items that start with
`assume_specification` call code that is not verified; their contracts are taken as they stand.

The firmware is built with `SALT`, `SSID` and `PASSWORD` in the environment. `SALT` has at least
16 bytes.
