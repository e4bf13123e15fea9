# homework_planner

A homework planner for a class: users register and sign in, add homework
(due on a date, or every week on a weekday, for themselves or the whole
class), record their progress, and get a day-by-day plan that spreads what is
left over the days before it is due, weighted by how much time each weekday
has.

- `src/` is the verified library. `distribute` and `schedule` hold the
  planner, with its laws: distributing keeps the weights, keeps the total
  load wherever every loaded day has a weighted day at or before it, and
  never plans work after it is due; the plan has one entry per day, hands
  out each homework's remaining work exactly once, and leaves nothing
  pending past its due day. `actions` holds what the application decides
  about users, homework, progress and classes; `auth` the session cookie;
  `endpoints` the route table and how each request is answered; `dates`
  the calendar taken from `chrono`.
- `app/` is the Rocket web application around it: database access with
  Diesel, request handling, templates and their helpers.
- `tests/` runs the library on concrete values.
